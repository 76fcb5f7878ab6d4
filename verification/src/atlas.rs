//! The glyph atlas: one shared texture of rasterized glyphs, shelf-packed.
//!
//! Grayscale masks live in the alpha channel; color glyphs use all four channels.
//!
//! When the shelf allocator runs dry, every glyph not drawn this frame or last is
//! deallocated and the allocation retried. Glyphs still in use are never evicted in the
//! middle of a frame, because their places are already baked into queued instances; so if
//! the retry still fails, the whole allocator is reset at the next frame edge and glyphs
//! are rasterized again as they come up.

use std::collections::HashMap;
use etagere::{AllocId, AtlasAllocator, size2};
use vstd::prelude::*;
use vstd::std_specs::iter::IteratorSpec;

verus! {

broadcast use vstd::std_specs::hash::group_hash_axioms;

/// Side length of the square glyph atlas.
pub const ATLAS_SIZE: u32 = 2048;

/// One-pixel gutter around every glyph so that linear filtering never bleeds.
pub const PADDING: i32 = 1;

/// Largest side length whose area the allocator can count.
pub const MAX_ATLAS_SIZE: u32 = 46340;

/// Most rectangles the allocator is asked to keep, a limit of this crate. The allocator
/// numbers its items with 16 bits and does not notice when they run out. A shelf with
/// some rectangles has at most as many free items and one more, and a shelf is at least 8
/// pixels high where there are two, so that an atlas of [`MAX_ATLAS_SIZE`] has at most 5792
/// shelves: this many rectangles come with at most 65534 items.
pub const MAX_PLACED: usize = 29871;

/// A rectangle by its edges: left, top, right, bottom.
pub type Edges = (i32, i32, i32, i32);

/// The shelf allocator of the crate `etagere`.
#[verifier::external_type_specification]
#[verifier::external_body]
pub struct ExAtlasAllocator(AtlasAllocator);

/// The rectangles that an allocator has handed out and not got back, by the number of
/// their ids.
pub uninterp spec fn placed(allocator: AtlasAllocator) -> Map<u32, (i32, i32, i32, i32)>;

/// The width and height that an allocator was made with.
pub uninterp spec fn extent(allocator: AtlasAllocator) -> (i32, i32);

/// Whether an allocator, as it is, finds room for a rectangle of that width and height.
pub uninterp spec fn can_place(allocator: AtlasAllocator, w: i32, h: i32) -> bool;

/// No pixel is in both rectangles.
pub open spec fn apart(a: Edges, b: Edges) -> bool {
    a.2 <= b.0 || b.2 <= a.0 || a.3 <= b.1 || b.3 <= a.1
}

/// The rectangle lies in a `width` by `height` atlas and has room for `w` by `h` pixels.
pub open spec fn holds(rect: Edges, size: (i32, i32), w: int, h: int) -> bool {
    &&& 0 <= rect.0
    &&& 0 <= rect.1
    &&& rect.0 + w <= rect.2 <= size.0
    &&& rect.1 + h <= rect.3 <= size.1
}

/// `AtlasAllocator::new` of `etagere`: an allocator for an atlas of that size, with
/// nothing handed out. It insists on a size of at most 65535 a side whose area fits in 31
/// bits, which a side of [`MAX_ATLAS_SIZE`] keeps to.
#[verifier::external_body]
fn new_allocator(width: i32, height: i32) -> (allocator: AtlasAllocator)
    requires
        0 < width <= MAX_ATLAS_SIZE,
        0 < height <= MAX_ATLAS_SIZE,
    ensures
        placed(allocator).dom().is_empty(),
        extent(allocator) == (width, height),
{
    AtlasAllocator::new(size2(width, height))
}

/// `AtlasAllocator::allocate` of `etagere`: a rectangle at least as large as asked for,
/// inside the atlas, sharing no pixel with those handed out before, under an id that none
/// of them has. Nothing, and no change, where it finds no room: always so where the size
/// is empty or larger than the atlas, and never so where nothing else is handed out.
/// Whether it finds room depends on the allocator and the size alone. Which free place it
/// picks is left open. The allocator's item numbers must not run out.
#[verifier::external_body]
fn place(allocator: &mut AtlasAllocator, w: i32, h: i32) -> (slot: Option<(u32, i32, i32)>)
    requires
        placed(*old(allocator)).dom().len() < MAX_PLACED,
    ensures
        extent(*final(allocator)) == extent(*old(allocator)),
        match slot {
            Some((id, x, y)) => {
                let rect = placed(*final(allocator))[id];
                &&& !placed(*old(allocator)).contains_key(id)
                &&& placed(*final(allocator)) == placed(*old(allocator)).insert(id, rect)
                &&& rect.0 == x
                &&& rect.1 == y
                &&& holds(rect, extent(*old(allocator)), w as int, h as int)
                &&& forall|other: u32| #[trigger]
                    placed(*old(allocator)).contains_key(other) ==> apart(
                        rect,
                        placed(*old(allocator))[other],
                    )
            },
            None => placed(*final(allocator)) == placed(*old(allocator)),
        },
        slot is Some <==> can_place(*old(allocator), w, h),
        w <= 0 || h <= 0 || extent(*old(allocator)).0 < w || extent(*old(allocator)).1 < h
            ==> slot is None,
        0 < w <= extent(*old(allocator)).0 && 0 < h <= extent(*old(allocator)).1 < 0xFFFF && placed(
            *old(allocator),
        ).dom().is_empty() ==> slot is Some,
{
    let found = allocator.allocate(size2(w, h))?;
    Some((found.id.serialize(), found.rectangle.min.x, found.rectangle.min.y))
}

/// `AtlasAllocator::deallocate` of `etagere`: takes back the rectangle with that id, and
/// leaves all others handed out.
#[verifier::external_body]
fn unplace(allocator: &mut AtlasAllocator, id: u32)
    requires
        placed(*old(allocator)).contains_key(id),
    ensures
        placed(*final(allocator)) == placed(*old(allocator)).remove(id),
        extent(*final(allocator)) == extent(*old(allocator)),
{
    allocator.deallocate(AllocId::deserialize(id));
}

/// `AtlasAllocator::clear` of `etagere`: takes back everything.
#[verifier::external_body]
fn unplace_all(allocator: &mut AtlasAllocator)
    ensures
        placed(*final(allocator)).dom().is_empty(),
        extent(*final(allocator)) == extent(*old(allocator)),
{
    allocator.clear();
}

/// `AtlasAllocator::is_empty` of `etagere`: whether nothing is handed out.
#[verifier::external_body]
fn nothing_placed(allocator: &AtlasAllocator) -> (empty: bool)
    ensures
        empty == placed(*allocator).dom().is_empty(),
{
    allocator.is_empty()
}

/// What a glyph is cached under: everything its rasterization depends on.
#[derive(Clone, Copy, Debug, PartialEq, Eq, Structural, Hash)]
pub struct AtlasKey {
    pub font: u32,
    pub glyph_id: u16,
    /// The bit pattern of the size in pixels.
    pub size: u32,
    /// The subpixel bins of the position.
    pub bins: u8,
    pub weight: u16,
    pub flags: u16,
}

impl AtlasKey {
    /// One number for the whole key.
    pub open spec fn number(self) -> int {
        ((((self.font * 0x1_0000 + self.glyph_id) * 0x1_0000_0000 + self.size) * 0x100 + self.bins)
            * 0x1_0000 + self.weight) * 0x1_0000 + self.flags
    }

    pub(crate) fn pack(&self) -> (n: u128)
        ensures
            n == self.number(),
    {
        ((((self.font as u128 * 0x1_0000 + self.glyph_id as u128) * 0x1_0000_0000
            + self.size as u128) * 0x100 + self.bins as u128) * 0x1_0000 + self.weight as u128)
            * 0x1_0000 + self.flags as u128
    }
}

/// Different keys have different numbers.
pub proof fn lemma_atlas_key_injective(a: AtlasKey, b: AtlasKey)
    requires
        a.number() == b.number(),
    ensures
        a == b,
{
    let a1 = a.font * 0x1_0000 + a.glyph_id;
    let b1 = b.font * 0x1_0000 + b.glyph_id;
    let a2 = a1 * 0x1_0000_0000 + a.size;
    let b2 = b1 * 0x1_0000_0000 + b.size;
    let a3 = a2 * 0x100 + a.bins;
    let b3 = b2 * 0x100 + b.bins;
    let a4 = a3 * 0x1_0000 + a.weight;
    let b4 = b3 * 0x1_0000 + b.weight;
    lemma_digit(a4, a.flags as int, b4, b.flags as int, 0x1_0000);
    lemma_digit(a3, a.weight as int, b3, b.weight as int, 0x1_0000);
    lemma_digit(a2, a.bins as int, b2, b.bins as int, 0x100);
    lemma_digit(a1, a.size as int, b1, b.size as int, 0x1_0000_0000);
    lemma_digit(
        a.font as int,
        a.glyph_id as int,
        b.font as int,
        b.glyph_id as int,
        0x1_0000,
    );
}

proof fn lemma_digit(a: int, x: int, b: int, y: int, base: int)
    by (nonlinear_arith)
    requires
        0 <= x < base,
        0 <= y < base,
        a * base + x == b * base + y,
    ensures
        a == b,
        x == y,
{
}

/// Where a glyph is in the atlas, in pixels, and how it is drawn.
#[derive(Clone, Copy, Debug, PartialEq, Eq, Structural)]
pub struct GlyphEntry {
    pub x: i32,
    pub y: i32,
    pub width: i32,
    pub height: i32,
    /// Offset from the glyph origin to the quad's top-left corner.
    pub left: i32,
    pub top: i32,
    pub is_color: bool,
}

/// How the bytes of a rasterized glyph are to be read.
#[derive(Clone, Copy, Debug, PartialEq, Eq, Structural)]
pub enum ImageContent {
    /// One byte of coverage per pixel.
    Mask,
    /// Four bytes of color per pixel.
    Color,
    /// Four bytes of coverage per pixel, one per color channel.
    SubpixelMask,
}

/// A rasterized glyph.
pub struct GlyphImage {
    pub left: i32,
    pub top: i32,
    pub width: u32,
    pub height: u32,
    pub content: ImageContent,
    pub data: Vec<u8>,
}

impl GlyphImage {
    /// There are pixels to draw.
    pub open spec fn has_pixels(&self) -> bool {
        self.width != 0 && self.height != 0
    }

    /// The image is no larger than any atlas could be.
    pub open spec fn is_sane(&self) -> bool {
        self.width <= 0x0FFF_FFFF && self.height <= 0x0FFF_FFFF
    }
}

/// White pixels of the given coverage.
pub open spec fn white(coverage: Seq<u8>) -> Seq<u8> {
    Seq::new(
        4 * coverage.len(),
        |i: int|
            if i % 4 == 3 {
                coverage[i / 4]
            } else {
                0xFF
            },
    )
}

/// The bytes written to the texture for an image: a mask is white at its coverage, color
/// is itself, and of a subpixel mask the green channel is the coverage.
pub open spec fn texture_bytes(content: ImageContent, data: Seq<u8>) -> Seq<u8> {
    match content {
        ImageContent::Mask => white(data),
        ImageContent::Color => data,
        ImageContent::SubpixelMask => white(
            Seq::new(data.len() / 4, |i: int| data[4 * i + 1]),
        ),
    }
}

/// What an image becomes at the corner of a place.
pub open spec fn entry_at(image: GlyphImage, x: int, y: int) -> GlyphEntry {
    GlyphEntry {
        x: (x + PADDING) as i32,
        y: (y + PADDING) as i32,
        width: image.width as i32,
        height: image.height as i32,
        left: image.left,
        top: image.top,
        is_color: image.content == ImageContent::Color,
    }
}

fn push_white(coverage: u8, rgba: &mut Vec<u8>)
    ensures
        final(rgba)@ == old(rgba)@ + seq![0xFFu8, 0xFFu8, 0xFFu8, coverage],
{
    rgba.push(0xFF);
    rgba.push(0xFF);
    rgba.push(0xFF);
    rgba.push(coverage);
    assert(rgba@ =~= old(rgba)@ + seq![0xFFu8, 0xFFu8, 0xFFu8, coverage]);
}

/// The bytes written to the texture for an image.
pub fn to_rgba(content: ImageContent, data: &Vec<u8>) -> (rgba: Vec<u8>)
    ensures
        rgba@ == texture_bytes(content, data@),
{
    let mut rgba: Vec<u8> = Vec::new();
    match content {
        ImageContent::Mask => {
            let mut i: usize = 0;
            assert(rgba@ =~= white(data@.take(0)));
            while i < data.len()
                invariant
                    i <= data@.len(),
                    rgba@ == white(data@.take(i as int)),
                decreases data@.len() - i,
            {
                push_white(data[i], &mut rgba);
                i = i + 1;
                assert(rgba@ =~= white(data@.take(i as int)));
            }
            assert(data@.take(i as int) =~= data@);
            rgba
        },
        ImageContent::Color => {
            rgba.extend_from_slice(data.as_slice());
            assert(rgba@ =~= data@);
            rgba
        },
        ImageContent::SubpixelMask => {
            // Subpixel masks do not come up with the render settings in use; the green
            // channel stands for the coverage if one ever does.
            let ghost green = Seq::new(data@.len() / 4, |i: int| data@[4 * i + 1]);
            let total: usize = data.len();
            let pixels: usize = total / 4;
            let mut i: usize = 0;
            assert(rgba@ =~= white(green.take(0)));
            while i < pixels
                invariant
                    i <= pixels,
                    total == data@.len(),
                    pixels == total / 4,
                    green == Seq::new(data@.len() / 4, |i: int| data@[4 * i + 1]),
                    rgba@ == white(green.take(i as int)),
                decreases pixels - i,
            {
                push_white(data[4 * i + 1], &mut rgba);
                i = i + 1;
                assert(rgba@ =~= white(green.take(i as int)));
            }
            assert(green.take(i as int) =~= green);
            rgba
        },
    }
}

/// A glyph's image at the corner `(x, y)` of its place in the atlas: what is remembered of
/// it, and the bytes to write.
pub fn pack_image(image: &GlyphImage, x: i32, y: i32) -> (packed: (GlyphEntry, Vec<u8>))
    requires
        image.is_sane(),
        0 <= x < i32::MAX,
        0 <= y < i32::MAX,
    ensures
        packed.0 == entry_at(*image, x as int, y as int),
        packed.1@ == texture_bytes(image.content, image.data@),
{
    let entry = GlyphEntry {
        x: x + PADDING,
        y: y + PADDING,
        width: image.width as i32,
        height: image.height as i32,
        left: image.left,
        top: image.top,
        is_color: image.content == ImageContent::Color,
    };
    (entry, to_rgba(image.content, &image.data))
}

/// A cached rasterization: the glyph (or nothing, where there is nothing to draw), the id
/// of its place, and the frame it was last drawn on.
#[derive(Clone, Copy)]
pub struct Entry {
    pub glyph: Option<GlyphEntry>,
    pub slot: Option<u32>,
    pub last_used: u64,
}

/// What an atlas holds.
pub ghost struct AtlasState {
    pub size: int,
    pub placed: Map<u32, (i32, i32, i32, i32)>,
    pub entries: Map<u128, Entry>,
    pub frame: u64,
    pub needs_reset: bool,
    pub generation: int,
}

impl AtlasState {
    /// The key has a place in the atlas.
    pub open spec fn has_place(self, key: u128) -> bool {
        self.entries.contains_key(key) && self.entries[key].slot is Some
    }

    /// The place of a key that has one.
    pub open spec fn place_of(self, key: u128) -> Edges {
        self.placed[self.entries[key].slot->0]
    }

    /// The entry's glyph sits in its place, a pixel from every edge.
    pub open spec fn sits(self, key: u128) -> bool {
        let entry = self.entries[key];
        let rect = self.place_of(key);
        &&& self.placed.contains_key(entry.slot->0)
        &&& entry.glyph matches Some(g) && g.x == rect.0 + PADDING && g.y == rect.1 + PADDING
            && 0 < g.width && 0 < g.height && g.x + g.width + PADDING <= rect.2 && g.y + g.height
            + PADDING <= rect.3
    }

    /// Every place lies in the atlas, no two share a pixel, and each is held by one entry,
    /// whose glyph sits in it.
    pub open spec fn valid(self) -> bool {
        &&& 0 < self.size <= MAX_ATLAS_SIZE
        &&& self.entries.dom().finite()
        &&& self.placed.dom().finite()
        &&& forall|id: u32| #[trigger]
            self.placed.contains_key(id) ==> holds(
                self.placed[id],
                (self.size as i32, self.size as i32),
                0,
                0,
            )
        &&& forall|a: u32, b: u32| #[trigger]
            self.placed.contains_key(a) && #[trigger] self.placed.contains_key(b) && a != b ==> apart(
                self.placed[a],
                self.placed[b],
            )
        &&& forall|key: u128| #[trigger] self.has_place(key) ==> self.sits(key)
        &&& forall|key: u128|
            self.entries.contains_key(key) && !#[trigger] self.has_place(key)
                ==> self.entries[key].glyph is None
        &&& forall|a: u128, b: u128| #[trigger]
            self.has_place(a) && #[trigger] self.has_place(b) && a != b ==> self.entries[a].slot
                != self.entries[b].slot
        &&& forall|id: u32| #[trigger]
            self.placed.contains_key(id) ==> exists|key: u128| #[trigger]
                self.has_place(key) && self.entries[key].slot == Some(id)
    }

    /// The oldest frame whose glyphs an eviction leaves alone.
    pub open spec fn keep_from(self) -> int {
        if self.frame == 0 {
            0
        } else {
            self.frame - 1
        }
    }

    /// The key's glyph was drawn this frame or last.
    pub open spec fn is_live(self, key: u128) -> bool {
        self.entries.contains_key(key) && self.entries[key].last_used >= self.keep_from()
    }

    /// Some glyph drawn this frame or last holds the place.
    pub open spec fn is_held(self, id: u32) -> bool {
        exists|key: u128| #[trigger] self.is_live(key) && self.entries[key].slot == Some(id)
    }

    /// The atlas without the glyphs that were not drawn this frame or last.
    pub open spec fn evicted(self) -> AtlasState {
        AtlasState {
            entries: self.entries.restrict(Set::new(|key: u128| self.is_live(key))),
            placed: self.placed.restrict(Set::new(|id: u32| self.is_held(id))),
            ..self
        }
    }

    /// The atlas after a reset.
    pub open spec fn reset(self) -> AtlasState {
        AtlasState {
            placed: Map::empty(),
            entries: Map::empty(),
            needs_reset: false,
            generation: self.generation + 1,
            ..self
        }
    }

    /// The state with an entry stamped as used.
    pub open spec fn touched(self, key: u128, frame: u64) -> AtlasState {
        if self.entries.contains_key(key) {
            AtlasState {
                entries: self.entries.insert(
                    key,
                    Entry { last_used: frame, ..self.entries[key] },
                ),
                ..self
            }
        } else {
            self
        }
    }

    /// The atlas once a rectangle was handed out under a new id.
    pub open spec fn with_place(self, id: u32, rect: Edges) -> AtlasState {
        AtlasState { placed: self.placed.insert(id, rect), ..self }
    }

    /// The rectangle can be handed out under the id: it lies in the atlas, has room, and
    /// shares no pixel with those handed out.
    pub open spec fn may_place(self, id: u32, rect: Edges, w: int, h: int) -> bool {
        &&& !self.placed.contains_key(id)
        &&& holds(rect, (self.size as i32, self.size as i32), w, h)
        &&& forall|other: u32| #[trigger]
            self.placed.contains_key(other) ==> apart(rect, self.placed[other])
    }

    /// The atlas once the glyph was cached under a key.
    pub open spec fn cached(self, key: u128, glyph: Option<GlyphEntry>, slot: Option<u32>) -> AtlasState {
        AtlasState {
            entries: self.entries.insert(
                key,
                Entry { glyph, slot, last_used: self.frame },
            ),
            ..self
        }
    }
}

proof fn lemma_live_places(state: AtlasState)
    requires
        state.valid(),
    ensures
        state.evicted().valid(),
        forall|key: u128| #[trigger]
            state.is_live(key) ==> state.evicted().entries.contains_key(key)
                && state.evicted().entries[key] == state.entries[key],
        forall|key: u128| #[trigger]
            state.is_live(key) && state.has_place(key) ==> state.evicted().has_place(key)
                && state.evicted().place_of(key) == state.place_of(key),
{
    let after = state.evicted();
    assert forall|key: u128| #[trigger] after.has_place(key) implies state.has_place(key)
        && state.is_live(key) && after.entries[key] == state.entries[key]
        && after.placed.contains_key(state.entries[key].slot->0) && after.place_of(key)
        == state.place_of(key) by {
        assert(state.is_live(key));
        assert(state.has_place(key));
        assert(state.sits(key));
        assert(state.is_held(state.entries[key].slot->0));
    }
    assert forall|key: u128| #[trigger] after.has_place(key) implies after.sits(key) by {
        assert(state.has_place(key));
        assert(state.sits(key));
    }
    assert forall|key: u128|
        after.entries.contains_key(key) && !#[trigger] after.has_place(
            key,
        ) implies after.entries[key].glyph is None by {
        assert(!state.has_place(key));
    }
    assert forall|a: u128, b: u128| #[trigger]
        after.has_place(a) && #[trigger] after.has_place(b) && a != b implies after.entries[a].slot
        != after.entries[b].slot by {
        assert(state.has_place(a) && state.has_place(b));
    }
    assert forall|id: u32| #[trigger] after.placed.contains_key(id) implies exists|key: u128|
     #[trigger] after.has_place(key) && after.entries[key].slot == Some(id) by {
        assert(state.is_held(id));
        let key = choose|key: u128| #[trigger]
            state.is_live(key) && state.entries[key].slot == Some(id);
        assert(state.is_live(key));
        assert(after.has_place(key));
    }
    assert forall|key: u128| #[trigger] state.is_live(key) && state.has_place(
        key,
    ) implies after.has_place(key) && after.place_of(key) == state.place_of(key) by {
        assert(after.has_place(key));
    }
    assert(after.entries.dom().finite()) by {
        vstd::set_lib::lemma_set_subset_finite(state.entries.dom(), after.entries.dom());
    }
    assert(after.placed.dom().finite()) by {
        vstd::set_lib::lemma_set_subset_finite(state.placed.dom(), after.placed.dom());
    }
}

/// An eviction never touches a glyph drawn this frame or last: it keeps its entry and its
/// place, so places already handed to queued instances stay good.
pub proof fn lemma_live_glyphs_survive(state: AtlasState, key: u128)
    requires
        state.valid(),
        state.is_live(key),
    ensures
        state.evicted().entries.contains_key(key),
        state.evicted().entries[key] == state.entries[key],
        state.has_place(key) ==> state.evicted().place_of(key) == state.place_of(key),
{
    lemma_live_places(state);
}

/// No two cached glyphs share a pixel, not even with a pixel of gutter around one of them.
pub proof fn lemma_glyphs_apart(state: AtlasState, a: u128, b: u128)
    requires
        state.valid(),
        state.has_place(a),
        state.has_place(b),
        a != b,
    ensures
        ({
            let g = state.entries[a].glyph->0;
            let h = state.entries[b].glyph->0;
            &&& 0 <= g.x && g.x + g.width <= state.size
            &&& 0 <= g.y && g.y + g.height <= state.size
            &&& g.x + g.width + PADDING < h.x || h.x + h.width + PADDING < g.x || g.y + g.height
                + PADDING < h.y || h.y + h.height + PADDING < g.y
        }),
{
    assert(state.sits(a) && state.sits(b));
    let i = state.entries[a].slot->0;
    let j = state.entries[b].slot->0;
    assert(state.placed.contains_key(i) && state.placed.contains_key(j));
    assert(apart(state.placed[i], state.placed[j]));
}

proof fn lemma_cached(state: AtlasState, key: u128, glyph: GlyphEntry, id: u32, rect: Edges)
    requires
        state.valid(),
        !state.entries.contains_key(key),
        0 < glyph.width,
        0 < glyph.height,
        state.may_place(id, rect, glyph.width + 2, glyph.height + 2),
        glyph.x == rect.0 + PADDING,
        glyph.y == rect.1 + PADDING,
    ensures
        state.with_place(id, rect).cached(key, Some(glyph), Some(id)).valid(),
{
    let after = state.with_place(id, rect).cached(key, Some(glyph), Some(id));
    assert forall|k: u128| #[trigger] after.has_place(k) && k != key implies state.has_place(k)
        && after.entries[k] == state.entries[k] && after.place_of(k) == state.place_of(k)
        && state.entries[k].slot != Some(id) by {
        assert(state.has_place(k));
        assert(state.sits(k));
    }
    assert forall|k: u128| #[trigger] after.has_place(k) implies after.sits(k) by {
        if k != key {
            assert(state.has_place(k));
            assert(state.sits(k));
        }
    }
    assert forall|k: u128|
        after.entries.contains_key(k) && !#[trigger] after.has_place(
            k,
        ) implies after.entries[k].glyph is None by {
        assert(k != key);
        assert(!state.has_place(k));
    }
    assert forall|a: u128, b: u128| #[trigger]
        after.has_place(a) && #[trigger] after.has_place(b) && a != b implies after.entries[a].slot
        != after.entries[b].slot by {
        if a != key {
            assert(state.has_place(a));
        }
        if b != key {
            assert(state.has_place(b));
        }
    }
    assert forall|i: u32| #[trigger] after.placed.contains_key(i) implies exists|k: u128| #[trigger]
        after.has_place(k) && after.entries[k].slot == Some(i) by {
        if i == id {
            assert(after.has_place(key));
        } else {
            assert(state.placed.contains_key(i));
            let k = choose|k: u128| #[trigger]
                state.has_place(k) && state.entries[k].slot == Some(i);
            assert(after.has_place(k));
        }
    }
}

proof fn lemma_cached_blank(state: AtlasState, key: u128)
    requires
        state.valid(),
        !state.entries.contains_key(key),
    ensures
        state.cached(key, None, None).valid(),
{
    let after = state.cached(key, None, None);
    assert forall|k: u128| #[trigger] after.has_place(k) implies state.has_place(k)
        && after.entries[k] == state.entries[k] by {}
    assert forall|k: u128| #[trigger] state.has_place(k) implies after.has_place(k) by {}
    assert forall|k: u128| #[trigger] after.has_place(k) implies after.sits(k) by {
        assert(state.sits(k));
    }
    assert forall|k: u128|
        after.entries.contains_key(k) && !#[trigger] after.has_place(
            k,
        ) implies after.entries[k].glyph is None by {
        if k != key {
            assert(!state.has_place(k));
        }
    }
    assert forall|i: u32| #[trigger] after.placed.contains_key(i) implies exists|k: u128| #[trigger]
        after.has_place(k) && after.entries[k].slot == Some(i) by {
        let k = choose|k: u128| #[trigger] state.has_place(k) && state.entries[k].slot == Some(i);
        assert(after.has_place(k));
    }
}

/// The keys of the map whose entries are older than `keep_from`.
fn stale_keys(entries: &HashMap<u128, Entry>, keep_from: u64) -> (stale: Vec<u128>)
    ensures
        stale@.no_duplicates(),
        forall|key: u128| #[trigger]
            stale@.contains(key) <==> entries@.contains_key(key) && entries@[key].last_used
                < keep_from,
{
    let mut stale: Vec<u128> = Vec::new();
    let ghost all = vstd::std_specs::hash::spec_keys_iter(entries).remaining();
    for key in keys: entries.keys()
        invariant
            keys.seq() == all,
            all.unref().to_set() == entries@.dom(),
            all.no_duplicates(),
            stale@.no_duplicates(),
            forall|k: u128| #[trigger]
                stale@.contains(k) <==> entries@.contains_key(k) && entries@[k].last_used
                    < keep_from && all.unref().take(keys.index() as int).contains(k),
    {
        let ghost plain = all.unref();
        let ghost before = stale@;
        let ghost n = keys.index() as int;
        proof {
            assert(plain[n] == *key);
            assert(plain.contains(*key));
            assert(plain.to_set().contains(*key));
            assert(!plain.take(n).contains(*key)) by {
                if plain.take(n).contains(*key) {
                    let i = choose|i: int| 0 <= i < n && plain.take(n)[i] == *key;
                    assert(all[i] != all[n]);
                }
            }
            assert(plain.take(n + 1) =~= plain.take(n).push(*key));
        }
        if let Some(entry) = entries.get(key) {
            if entry.last_used < keep_from {
                stale.push(*key);
            }
        }
        proof {
            assert forall|k: u128| #[trigger]
                stale@.contains(k) <==> entries@.contains_key(k) && entries@[k].last_used
                    < keep_from && plain.take(n + 1).contains(k) by {
                lemma_push_contains(plain.take(n), *key, k);
                lemma_push_contains(before, *key, k);
            }
            assert(!before.contains(*key));
        }
    }
    proof {
        let plain = all.unref();
        assert(plain.take(plain.len() as int) =~= plain);
        assert forall|key: u128| #[trigger]
            stale@.contains(key) <==> entries@.contains_key(key) && entries@[key].last_used
                < keep_from by {
            if entries@.contains_key(key) {
                assert(plain.to_set().contains(key));
            }
        }
    }
    stale
}

proof fn lemma_push_contains(s: Seq<u128>, x: u128, k: u128)
    ensures
        s.push(x).contains(k) <==> s.contains(k) || k == x,
{
    if s.contains(k) {
        let i = choose|i: int| 0 <= i < s.len() && s[i] == k;
        assert(s.push(x)[i] == k);
    }
    if k == x {
        assert(s.push(x)[s.len() as int] == k);
    }
    if s.push(x).contains(k) && k != x {
        let i = choose|i: int| 0 <= i < s.push(x).len() && s.push(x)[i] == k;
        assert(s[i] == k);
    }
}

/// Pixels to write to the texture.
pub struct TextureWrite {
    pub x: u32,
    pub y: u32,
    pub width: u32,
    pub height: u32,
    pub rgba: Vec<u8>,
}

/// `after` is `base` with the image placed somewhere and cached under the key.
pub open spec fn packed_into(
    base: AtlasState,
    key: u128,
    image: GlyphImage,
    after: AtlasState,
    glyph: GlyphEntry,
) -> bool {
    exists|id: u32, rect: Edges| #[trigger]
        base.may_place(id, rect, image.width + 2 * PADDING, image.height + 2 * PADDING) && glyph
            == entry_at(image, rect.0 as int, rect.1 as int) && after == base.with_place(
            id,
            rect,
        ).cached(key, Some(glyph), Some(id))
}

/// The allocator has the state's rectangles handed out, in an atlas of its size.
pub open spec fn stands_for(allocator: AtlasAllocator, state: AtlasState) -> bool {
    placed(allocator) == state.placed && extent(allocator) == (state.size as i32, state.size as i32)
}

/// What a try to place a rectangle in the state came to: an allocator that stands for the
/// state was asked, unless it keeps [`MAX_PLACED`] rectangles, and found room or did not.
/// Its answer may depend on the order in which rectangles were handed out and taken back.
pub open spec fn tried(state: AtlasState, w: i32, h: i32, found: bool) -> bool {
    exists|allocator: AtlasAllocator| #[trigger]
        stands_for(allocator, state) && found == (state.placed.dom().len() < MAX_PLACED
            && can_place(allocator, w, h))
}

/// What comes of an image with pixels, under a key that is not cached. Where there is room
/// at once, it is packed and written, and nothing else changes. Where there is not, glyphs
/// are evicted first and the allocator is asked again: then it is packed and written, or
/// there is still no room, nothing is cached, and the next frame starts with a reset. An
/// image larger than the atlas never has room, and one that fits has room where an eviction
/// leaves nothing else placed.
pub open spec fn offered(
    before: AtlasState,
    at_once: bool,
    key: u128,
    image: GlyphImage,
    after: AtlasState,
    found: (Option<GlyphEntry>, Option<TextureWrite>),
) -> bool {
    let fits = image.width + 2 * PADDING <= before.size && image.height + 2 * PADDING
        <= before.size;
    let base = if at_once {
        before
    } else {
        before.evicted()
    };
    let w = (image.width + 2 * PADDING) as i32;
    let h = (image.height + 2 * PADDING) as i32;
    &&& tried(before, w, h, at_once)
    &&& !at_once ==> tried(before.evicted(), w, h, found.0 is Some)
    &&& match found.0 {
        None => !at_once && after == (AtlasState { needs_reset: true, ..base }) && found.1 is None,
        Some(glyph) => {
            &&& packed_into(base, key, image, after, glyph)
            &&& found.1 matches Some(write) && write.x == glyph.x && write.y == glyph.y
                && write.width == glyph.width && write.height == glyph.height && write.rgba@
                == texture_bytes(image.content, image.data@)
        },
    }
    &&& !fits ==> found.0 is None
    &&& fits && before.evicted().placed.dom().is_empty() ==> found.0 is Some
}

/// Making room for a new glyph never moves or drops one drawn this frame or last.
pub proof fn lemma_insert_keeps_live_glyphs(
    before: AtlasState,
    at_once: bool,
    key: u128,
    image: GlyphImage,
    after: AtlasState,
    found: (Option<GlyphEntry>, Option<TextureWrite>),
    live: u128,
)
    requires
        before.valid(),
        before.is_live(live),
        live != key,
        offered(before, at_once, key, image, after, found),
    ensures
        after.entries.contains_key(live),
        after.entries[live] == before.entries[live],
        before.has_place(live) ==> after.place_of(live) == before.place_of(live),
{
    lemma_live_places(before);
    if before.has_place(live) {
        assert(before.sits(live));
        assert(before.evicted().has_place(live));
        assert(before.evicted().sits(live));
    }
}

/// The rasterized glyphs, and where each one is in the texture.
pub struct Atlas {
    size: u32,
    allocator: AtlasAllocator,
    /// Rectangles that the allocator has handed out.
    live: usize,
    entries: HashMap<u128, Entry>,
    frame: u64,
    /// Allocation failed even after eviction; the allocator is wiped next frame.
    needs_reset: bool,
    generation: u64,
}

impl View for Atlas {
    type V = AtlasState;

    closed spec fn view(&self) -> AtlasState {
        AtlasState {
            size: self.size as int,
            placed: placed(self.allocator),
            entries: self.entries@,
            frame: self.frame,
            needs_reset: self.needs_reset,
            generation: self.generation as int,
        }
    }
}

impl Atlas {
    /// The state is valid, and the allocator is for an atlas of this size.
    pub closed spec fn wf(&self) -> bool {
        &&& self@.valid()
        &&& extent(self.allocator) == (self.size as i32, self.size as i32)
        &&& self.live == placed(self.allocator).dom().len()
    }

    /// What every operation keeps: the state of a well-formed atlas is valid.
    pub proof fn lemma_valid(&self)
        requires
            self.wf(),
        ensures
            self@.valid(),
    {
    }

    /// There is room for the image, with its gutter, without an eviction: the allocator
    /// finds a place, and has fewer than [`MAX_PLACED`] rectangles handed out.
    pub closed spec fn has_room(&self, image: GlyphImage) -> bool {
        self@.placed.dom().len() < MAX_PLACED && can_place(
            self.allocator,
            (image.width + 2 * PADDING) as i32,
            (image.height + 2 * PADDING) as i32,
        )
    }

    /// An atlas with as many rectangles as this crate lets it keep has room for no more.
    pub proof fn lemma_room_is_limited(&self, image: GlyphImage)
        requires
            self@.placed.dom().len() >= MAX_PLACED,
        ensures
            !self.has_room(image),
    {
    }

    /// An empty atlas of the usual size.
    pub fn new() -> (atlas: Atlas)
        ensures
            atlas.wf(),
            atlas@ == (AtlasState {
                size: ATLAS_SIZE as int,
                placed: Map::empty(),
                entries: Map::empty(),
                frame: 0,
                needs_reset: false,
                generation: 0,
            }),
    {
        Atlas::with_size(ATLAS_SIZE)
    }

    /// An empty atlas, `size` pixels a side.
    pub fn with_size(size: u32) -> (atlas: Atlas)
        requires
            0 < size <= MAX_ATLAS_SIZE,
        ensures
            atlas.wf(),
            atlas@ == (AtlasState {
                size: size as int,
                placed: Map::empty(),
                entries: Map::empty(),
                frame: 0,
                needs_reset: false,
                generation: 0,
            }),
    {
        let atlas = Atlas {
            size,
            allocator: new_allocator(size as i32, size as i32),
            live: 0,
            entries: HashMap::new(),
            frame: 0,
            needs_reset: false,
            generation: 0,
        };
        assert(atlas@.placed =~= Map::empty());
        atlas
    }

    /// The side length, in pixels.
    pub fn size(&self) -> (size: u32)
        ensures
            size == self@.size,
    {
        self.size
    }

    /// Changes at every wholesale reset, the one event that invalidates a place that a
    /// retained instance holds.
    pub fn generation(&self) -> (generation: u64)
        ensures
            generation == self@.generation,
    {
        self.generation
    }

    /// Whether the next frame starts with a reset.
    pub fn needs_reset(&self) -> (yes: bool)
        ensures
            yes == self@.needs_reset,
    {
        self.needs_reset
    }

    /// The number of cached glyphs.
    pub fn len(&self) -> (len: usize)
        ensures
            len == self@.entries.dom().len(),
    {
        self.entries.len()
    }

    /// Whether no glyph has a place in the texture.
    pub fn is_empty(&self) -> (empty: bool)
        ensures
            empty == self@.placed.dom().is_empty(),
    {
        nothing_placed(&self.allocator)
    }

    /// Starts a frame: stamps lookups with `frame` and runs any reset that the last frame
    /// deferred.
    pub fn begin_frame(&mut self, frame: u64)
        requires
            old(self).wf(),
            old(self)@.generation < u64::MAX,
        ensures
            final(self).wf(),
            !old(self)@.needs_reset ==> final(self)@ == (AtlasState { frame, ..old(self)@ }),
            old(self)@.needs_reset ==> final(self)@ == (AtlasState { frame, ..old(self)@.reset() }),
    {
        self.frame = frame;
        if self.needs_reset {
            self.needs_reset = false;
            unplace_all(&mut self.allocator);
            self.live = 0;
            self.entries.clear();
            self.generation = self.generation + 1;
            assert(self@.placed =~= Map::empty());
        } else {
            proof {
                lemma_reframed(old(self)@, frame);
            }
        }
    }

    /// Stamps a glyph as used on `frame` without looking anything up.
    ///
    /// Eviction drops whatever was not drawn this frame or last, and a retained block bakes
    /// its places once instead of asking again every frame; so the keys its instances refer
    /// to are stamped for it.
    pub fn touch(&mut self, key: &AtlasKey, frame: u64)
        requires
            old(self).wf(),
        ensures
            final(self).wf(),
            final(self)@ == old(self)@.touched(key.number() as u128, frame),
            forall|image: GlyphImage| #[trigger]
                final(self).has_room(image) == old(self).has_room(image),
    {
        let id: u128 = key.pack();
        let found: Option<Entry> = match self.entries.get(&id) {
            Some(entry) => Some(*entry),
            None => None,
        };
        if let Some(entry) = found {
            let before: Option<Entry> = self.entries.insert(
                id,
                Entry { glyph: entry.glyph, slot: entry.slot, last_used: frame },
            );
            proof {
                lemma_touched(old(self)@, id, frame);
            }
        }
    }

    /// A cached glyph, stamped as used now; nothing where the key is not in the cache.
    pub fn get(&mut self, key: AtlasKey) -> (found: Option<Option<GlyphEntry>>)
        requires
            old(self).wf(),
        ensures
            final(self).wf(),
            final(self)@ == old(self)@.touched(key.number() as u128, old(self)@.frame),
            found == (if old(self)@.entries.contains_key(key.number() as u128) {
                Some(old(self)@.entries[key.number() as u128].glyph)
            } else {
                None
            }),
            forall|image: GlyphImage| #[trigger]
                final(self).has_room(image) == old(self).has_room(image),
    {
        let id: u128 = key.pack();
        let found: Option<Option<GlyphEntry>> = match self.entries.get(&id) {
            Some(entry) => Some(entry.glyph),
            None => None,
        };
        self.touch(&key, self.frame);
        found
    }

    /// Drops every glyph not drawn this frame or last.
    fn evict(&mut self)
        requires
            old(self).wf(),
        ensures
            final(self).wf(),
            final(self)@ == old(self)@.evicted(),
    {
        let keep_from: u64 = self.frame.saturating_sub(1);
        let stale: Vec<u128> = stale_keys(&self.entries, keep_from);
        let ghost start = self@;
        let mut i: usize = 0;
        while i < stale.len()
            invariant
                i <= stale@.len(),
                stale@.no_duplicates(),
                start.valid(),
                keep_from == start.keep_from(),
                forall|key: u128| #[trigger]
                    stale@.contains(key) <==> start.entries.contains_key(key)
                        && start.entries[key].last_used < keep_from,
                self@.size == start.size,
                self@.frame == start.frame,
                self@.needs_reset == start.needs_reset,
                self@.generation == start.generation,
                extent(self.allocator) == (self.size as i32, self.size as i32),
                self.live == placed(self.allocator).dom().len(),
                self@.placed.dom().finite(),
                forall|k: u128| #[trigger]
                    self@.entries.contains_key(k) <==> start.entries.contains_key(k)
                        && !stale@.take(i as int).contains(k),
                forall|k: u128| #[trigger]
                    self@.entries.contains_key(k) ==> self@.entries[k] == start.entries[k],
                forall|id: u32| #[trigger]
                    self@.placed.contains_key(id) <==> start.placed.contains_key(id) && !slot_gone(
                        start,
                        stale@,
                        i as int,
                        id,
                    ),
                forall|id: u32| #[trigger]
                    self@.placed.contains_key(id) ==> self@.placed[id] == start.placed[id],
            decreases stale@.len() - i,
        {
            let key: u128 = stale[i];
            let ghost before = self@;
            assert(stale@.contains(key));
            assert(stale@.take(i + 1) =~= stale@.take(i as int).push(key));
            assert(!stale@.take(i as int).contains(key)) by {
                if stale@.take(i as int).contains(key) {
                    let j = choose|j: int| 0 <= j < i && stale@.take(i as int)[j] == key;
                    assert(stale@[j] != stale@[i as int]);
                }
            }
            assert(start.entries.contains_key(key));
            assert(before.entries.contains_key(key));
            assert(before.entries[key] == start.entries[key]);
            let removed: Option<Entry> = self.entries.remove(&key);
            assert(self@.entries == before.entries.remove(key));
            assert(removed == Some(start.entries[key]));
            if let Some(entry) = removed {
                if let Some(id) = entry.slot {
                    proof {
                        assert(start.has_place(key));
                        assert(start.sits(key));
                        if slot_gone(start, stale@, i as int, id) {
                            let j = choose|j: int|
                                0 <= j < i && start.entries[#[trigger] stale@[j]].slot == Some(id);
                            assert(stale@.contains(stale@[j]));
                            assert(start.has_place(stale@[j]));
                            assert(stale@[j] != stale@[i as int]);
                        }
                    }
                    unplace(&mut self.allocator, id);
                    assert(self@.placed.dom() =~= before.placed.dom().remove(id));
                    self.live = self.live - 1;
                }
            }
            proof {
                assert forall|k: u128| #[trigger]
                    self@.entries.contains_key(k) <==> start.entries.contains_key(k)
                        && !stale@.take(i + 1).contains(k) by {
                    lemma_push_contains(stale@.take(i as int), key, k);
                    assert(before.entries.contains_key(k) <==> start.entries.contains_key(k)
                        && !stale@.take(i as int).contains(k));
                }
                assert forall|id: u32| #[trigger]
                    self@.placed.contains_key(id) <==> start.placed.contains_key(id) && !slot_gone(
                        start,
                        stale@,
                        i + 1,
                        id,
                    ) by {
                    assert(before.placed.contains_key(id) <==> start.placed.contains_key(id)
                        && !slot_gone(start, stale@, i as int, id));
                    if slot_gone(start, stale@, i as int, id) {
                        let j = choose|j: int|
                            0 <= j < i && start.entries[#[trigger] stale@[j]].slot == Some(id);
                        assert(start.entries[stale@[j]].slot == Some(id));
                    }
                    if start.entries[key].slot == Some(id) {
                        assert(start.entries[stale@[i as int]].slot == Some(id));
                    }
                }
            }
            i = i + 1;
        }
        proof {
            assert(stale@.take(i as int) =~= stale@);
            lemma_live_places(start);
            assert(self@.entries =~= start.evicted().entries) by {
                assert forall|k: u128| self@.entries.contains_key(k)
                    <==> start.evicted().entries.contains_key(k) by {
                    assert(stale@.contains(k) <==> start.entries.contains_key(k)
                        && start.entries[k].last_used < keep_from);
                }
            }
            assert(self@.placed =~= start.evicted().placed) by {
                assert forall|id: u32| self@.placed.contains_key(id)
                    <==> start.evicted().placed.contains_key(id) by {
                    if start.placed.contains_key(id) {
                        let owner = choose|key: u128| #[trigger]
                            start.has_place(key) && start.entries[key].slot == Some(id);
                        assert(start.has_place(owner));
                        if start.is_held(id) {
                            let key = choose|key: u128| #[trigger]
                                start.is_live(key) && start.entries[key].slot == Some(id);
                            assert(start.has_place(key));
                            assert(key == owner);
                            if slot_gone(start, stale@, i as int, id) {
                                let j = choose|j: int|
                                    0 <= j < i && start.entries[#[trigger] stale@[j]].slot
                                        == Some(id);
                                assert(stale@.contains(stale@[j]));
                                assert(start.has_place(stale@[j]));
                                assert(stale@[j] == owner);
                            }
                        } else {
                            assert(!start.is_live(owner));
                            assert(stale@.contains(owner));
                            let j = choose|j: int| 0 <= j < stale@.len() && stale@[j] == owner;
                            assert(start.entries[stale@[j]].slot == Some(id));
                        }
                    }
                }
            }
        }
    }

    /// Asks the allocator for a rectangle, where its item numbers cannot run out.
    fn try_place(&mut self, w: i32, h: i32) -> (slot: Option<(u32, i32, i32)>)
        requires
            old(self).wf(),
            0 < w,
            0 < h,
        ensures
            extent(final(self).allocator) == (final(self).size as i32, final(self).size as i32),
            final(self).live == placed(final(self).allocator).dom().len(),
            match slot {
                Some((id, x, y)) => {
                    let rect = final(self)@.placed[id];
                    &&& old(self)@.may_place(id, rect, w as int, h as int)
                    &&& rect.0 == x
                    &&& rect.1 == y
                    &&& final(self)@ == old(self)@.with_place(id, rect)
                },
                None => final(self)@ == old(self)@ && final(self).wf(),
            },
            slot is Some <==> old(self).live < MAX_PLACED && can_place(old(self).allocator, w, h),
            old(self)@.size < w || old(self)@.size < h ==> slot is None,
            w <= old(self)@.size && h <= old(self)@.size && old(self)@.placed.dom().is_empty()
                ==> slot is Some,
    {
        if self.live >= MAX_PLACED {
            return None;
        }
        let slot: Option<(u32, i32, i32)> = place(&mut self.allocator, w, h);
        if slot.is_some() {
            self.live = self.live + 1;
        }
        slot
    }

    /// Allocates, evicting glyphs untouched this frame and last if the shelf allocator is
    /// dry.
    fn allocate(&mut self, w: i32, h: i32) -> (slot: Option<(u32, i32, i32)>)
        requires
            old(self).wf(),
            0 < w,
            0 < h,
        ensures
            extent(final(self).allocator) == (final(self).size as i32, final(self).size as i32),
            final(self).live == placed(final(self).allocator).dom().len(),
            match slot {
                Some((id, x, y)) => {
                    let rect = final(self)@.placed[id];
                    let base = if old(self).live < MAX_PLACED && can_place(
                        old(self).allocator,
                        w,
                        h,
                    ) {
                        old(self)@
                    } else {
                        old(self)@.evicted()
                    };
                    &&& rect.0 == x
                    &&& rect.1 == y
                    &&& base.may_place(id, rect, w as int, h as int)
                    &&& final(self)@ == base.with_place(id, rect)
                },
                None => final(self).wf() && final(self)@ == (AtlasState {
                    needs_reset: true,
                    ..old(self)@.evicted()
                }),
            },
            old(self).live < MAX_PLACED && can_place(old(self).allocator, w, h) ==> slot is Some,
            !(old(self).live < MAX_PLACED && can_place(old(self).allocator, w, h)) ==> tried(
                old(self)@.evicted(),
                w,
                h,
                slot is Some,
            ),
            old(self)@.size < w || old(self)@.size < h ==> slot is None,
            w <= old(self)@.size && h <= old(self)@.size
                && old(self)@.evicted().placed.dom().is_empty() ==> slot is Some,
    {
        if let Some(found) = self.try_place(w, h) {
            return Some(found);
        }
        self.evict();
        proof {
            assert(stands_for(self.allocator, old(self)@.evicted()));
        }
        if let Some(found) = self.try_place(w, h) {
            return Some(found);
        }
        // Everything left is live this frame, or the free space is too fragmented to reuse.
        // Start over at the next frame edge rather than pulling texture space out from under
        // queued instances.
        self.needs_reset = true;
        proof {
            lemma_marked(old(self)@.evicted());
        }
        None
    }

    /// Whether a glyph is cached, without using it.
    pub fn knows(&self, key: AtlasKey) -> (yes: bool)
        ensures
            yes == self@.entries.contains_key(key.number() as u128),
    {
        self.entries.contains_key(&key.pack())
    }

    /// Looks a glyph up, or caches its image on first use: the image goes where the
    /// allocator has room, and its pixels are handed back to be written to the texture.
    ///
    /// An image without pixels (whitespace) is cached as nothing to draw. Glyphs are evicted
    /// only where there is no room at once. Where there is none even then, nothing is cached,
    /// and the next frame starts with a reset. There is never room for more than
    /// [`MAX_PLACED`] glyphs with pixels.
    pub fn get_or_insert(&mut self, key: AtlasKey, image: Option<&GlyphImage>) -> (found: (
        Option<GlyphEntry>,
        Option<TextureWrite>,
    ))
        requires
            old(self).wf(),
            image matches Some(pixels) ==> pixels.is_sane(),
        ensures
            final(self).wf(),
            old(self)@.entries.contains_key(key.number() as u128) ==> final(self)@
                == old(self)@.touched(key.number() as u128, old(self)@.frame) && found.0
                == old(self)@.entries[key.number() as u128].glyph && found.1 is None,
            !old(self)@.entries.contains_key(key.number() as u128) ==> match image {
                Some(pixels) if pixels.has_pixels() => offered(
                    old(self)@,
                    old(self).has_room(*pixels),
                    key.number() as u128,
                    *pixels,
                    final(self)@,
                    found,
                ),
                _ => final(self)@ == old(self)@.cached(key.number() as u128, None, None)
                    && found.0 is None && found.1 is None,
            },
    {
        let id: u128 = key.pack();
        if let Some(glyph) = self.get(key) {
            return (glyph, None);
        }
        let pixels: &GlyphImage = match image {
            Some(pixels) if pixels.width != 0 && pixels.height != 0 => pixels,
            _ => {
                let before: Option<Entry> = self.entries.insert(
                    id,
                    Entry { glyph: None, slot: None, last_used: self.frame },
                );
                proof {
                    lemma_cached_blank(old(self)@, id);
                }
                return (None, None);
            },
        };
        proof {
            assert(self.has_room(*pixels) == old(self).has_room(*pixels));
            assert(stands_for(self.allocator, old(self)@));
        }
        let w: i32 = pixels.width as i32 + 2 * PADDING;
        let h: i32 = pixels.height as i32 + 2 * PADDING;
        let slot: Option<(u32, i32, i32)> = self.allocate(w, h);
        match slot {
            None => (None, None),
            Some((place, x, y)) => {
                let ghost middle = self@;
                let ghost rect = self@.placed[place];
                let ghost base = if old(self).has_room(*pixels) {
                    old(self)@
                } else {
                    old(self)@.evicted()
                };
                proof {
                    lemma_live_places(old(self)@);
                    assert(base.may_place(place, rect, w as int, h as int));
                    assert(middle == base.with_place(place, rect));
                }
                let (glyph, rgba) = pack_image(pixels, x, y);
                let before: Option<Entry> = self.entries.insert(
                    id,
                    Entry { glyph: Some(glyph), slot: Some(place), last_used: self.frame },
                );
                proof {
                    lemma_cached(base, id, glyph, place, rect);
                    assert(packed_into(base, id, *pixels, self@, glyph));
                }
                let write = TextureWrite {
                    x: glyph.x as u32,
                    y: glyph.y as u32,
                    width: pixels.width,
                    height: pixels.height,
                    rgba,
                };
                (Some(glyph), Some(write))
            },
        }
    }
}

/// One of the first `n` stale keys held the place.
spec fn slot_gone(state: AtlasState, stale: Seq<u128>, n: int, id: u32) -> bool {
    exists|j: int| 0 <= j < n && state.entries[#[trigger] stale[j]].slot == Some(id)
}

proof fn lemma_marked(state: AtlasState)
    requires
        state.valid(),
    ensures
        (AtlasState { needs_reset: true, ..state }).valid(),
{
    let after = AtlasState { needs_reset: true, ..state };
    lemma_same_entries(state, after);
}

proof fn lemma_reframed(state: AtlasState, frame: u64)
    requires
        state.valid(),
    ensures
        (AtlasState { frame, ..state }).valid(),
{
    let after = AtlasState { frame, ..state };
    lemma_same_entries(state, after);
}

proof fn lemma_same_entries(state: AtlasState, after: AtlasState)
    requires
        state.valid(),
        after.size == state.size,
        after.placed == state.placed,
        after.entries == state.entries,
    ensures
        after.valid(),
{
    assert forall|k: u128| #[trigger] after.has_place(k) implies state.has_place(k)
        && after.sits(k) by {
        assert(state.has_place(k));
        assert(state.sits(k));
    }
    assert forall|i: u32| #[trigger] after.placed.contains_key(i) implies exists|k: u128| #[trigger]
        after.has_place(k) && after.entries[k].slot == Some(i) by {
        let k = choose|k: u128| #[trigger] state.has_place(k) && state.entries[k].slot == Some(i);
        assert(after.has_place(k));
    }
    assert forall|k: u128|
        after.entries.contains_key(k) && !#[trigger] after.has_place(
            k,
        ) implies after.entries[k].glyph is None by {
        assert(!state.has_place(k));
    }
}

proof fn lemma_touched(state: AtlasState, key: u128, frame: u64)
    requires
        state.valid(),
    ensures
        state.touched(key, frame).valid(),
{
    let after = state.touched(key, frame);
    assert forall|k: u128| #[trigger] after.has_place(k) implies state.has_place(k)
        && after.sits(k) && after.entries[k].slot == state.entries[k].slot by {
        assert(state.has_place(k));
        assert(state.sits(k));
    }
    assert forall|i: u32| #[trigger] after.placed.contains_key(i) implies exists|k: u128| #[trigger]
        after.has_place(k) && after.entries[k].slot == Some(i) by {
        let k = choose|k: u128| #[trigger] state.has_place(k) && state.entries[k].slot == Some(i);
        assert(after.has_place(k));
    }
    assert forall|k: u128|
        after.entries.contains_key(k) && !#[trigger] after.has_place(
            k,
        ) implies after.entries[k].glyph is None by {
        assert(!state.has_place(k));
    }
}

/// What is written to the texture for a pixel: a mask's coverage as white of that opacity, a
/// color image's four bytes as they are, and of a subpixel mask the green channel as the
/// coverage.
pub proof fn lemma_texture_pixel(content: ImageContent, data: Seq<u8>, p: int)
    requires
        0 <= p,
        content == ImageContent::Mask ==> p < data.len(),
        content != ImageContent::Mask ==> 4 * p + 3 < data.len(),
    ensures
        ({
            let out = texture_bytes(content, data);
            match content {
                ImageContent::Mask => out.len() == 4 * data.len() && out[4 * p] == 0xFF && out[4 * p
                    + 1] == 0xFF && out[4 * p + 2] == 0xFF && out[4 * p + 3] == data[p],
                ImageContent::Color => out.len() == data.len() && out[4 * p] == data[4 * p]
                    && out[4 * p + 1] == data[4 * p + 1] && out[4 * p + 2] == data[4 * p + 2]
                    && out[4 * p + 3] == data[4 * p + 3],
                ImageContent::SubpixelMask => 4 * p + 3 < out.len() <= data.len() && out[4 * p]
                    == 0xFF && out[4 * p + 1] == 0xFF && out[4 * p + 2] == 0xFF && out[4 * p + 3]
                    == data[4 * p + 1],
            }
        }),
{
}

/// An image is remembered as it is, a pixel right of and below the corner of its place.
pub proof fn lemma_entry(image: GlyphImage, x: int, y: int)
    requires
        image.is_sane(),
        0 <= x < i32::MAX,
        0 <= y < i32::MAX,
    ensures
        ({
            let entry = entry_at(image, x, y);
            &&& entry.x == x + 1
            &&& entry.y == y + 1
            &&& entry.width == image.width
            &&& entry.height == image.height
            &&& entry.left == image.left
            &&& entry.top == image.top
            &&& entry.is_color <==> image.content == ImageContent::Color
        }),
{
}

/// An eviction drops exactly the glyphs that were last drawn before the frame before this
/// one, and takes back exactly their places.
#[verifier::spinoff_prover]
pub proof fn lemma_eviction_drops_stale(state: AtlasState, key: u128)
    requires
        state.valid(),
    ensures
        state.evicted().entries.contains_key(key) <==> state.entries.contains_key(key)
            && state.entries[key].last_used + 1 >= state.frame,
        state.has_place(key) ==> (state.evicted().placed.contains_key(state.entries[key].slot->0)
            <==> state.entries[key].last_used + 1 >= state.frame),
        state.evicted().frame == state.frame,
        state.evicted().size == state.size,
        state.evicted().generation == state.generation,
        state.evicted().needs_reset == state.needs_reset,
{
    if state.has_place(key) {
        let id = state.entries[key].slot->0;
        assert(state.sits(key));
        if state.is_held(id) {
            let other = choose|other: u128| #[trigger]
                state.is_live(other) && state.entries[other].slot == Some(id);
            assert(state.has_place(other));
        }
        if state.is_live(key) {
            assert(state.is_held(id));
        }
    }
}

/// A reset leaves nothing cached and nothing placed, and counts.
pub proof fn lemma_reset(state: AtlasState)
    requires
        state.valid(),
    ensures
        state.reset().valid(),
        forall|key: u128| !#[trigger] state.reset().entries.contains_key(key),
        forall|id: u32| !#[trigger] state.reset().placed.contains_key(id),
        !state.reset().needs_reset,
        state.reset().generation == state.generation + 1,
        state.reset().size == state.size,
        state.reset().frame == state.frame,
{
}

/// Stamping a glyph changes when it was last drawn and nothing else; one that is not cached
/// stays so.
pub proof fn lemma_touching_stamps(state: AtlasState, key: u128, frame: u64, other: u128)
    ensures
        ({
            let after = state.touched(key, frame);
            &&& after.entries.contains_key(other) == state.entries.contains_key(other)
            &&& state.entries.contains_key(other) ==> after.entries[other].glyph
                == state.entries[other].glyph && after.entries[other].slot
                == state.entries[other].slot && after.entries[other].last_used == (if other
                == key {
                frame
            } else {
                state.entries[other].last_used
            })
            &&& after.placed == state.placed
            &&& after.frame == state.frame
            &&& after.size == state.size
            &&& after.generation == state.generation
            &&& after.needs_reset == state.needs_reset
        }),
{
}

/// An image that finds a place is cached there: its entry is drawn this frame, is of the
/// image's size, a pixel inside a place that nothing else had, and all its bytes are to be
/// written there; every glyph that was not evicted for it stays as it was.
#[verifier::spinoff_prover]
pub proof fn lemma_packed(
    before: AtlasState,
    at_once: bool,
    key: u128,
    image: GlyphImage,
    after: AtlasState,
    found: (Option<GlyphEntry>, Option<TextureWrite>),
)
    requires
        before.valid(),
        !before.entries.contains_key(key),
        image.is_sane(),
        offered(before, at_once, key, image, after, found),
    ensures
        found.0 matches Some(glyph) ==> {
            &&& after.entries.contains_key(key)
            &&& after.entries[key].glyph == Some(glyph)
            &&& after.entries[key].last_used == before.frame
            &&& after.entries[key].slot is Some
            &&& glyph.width == image.width && glyph.height == image.height
            &&& glyph.left == image.left && glyph.top == image.top
            &&& glyph.is_color <==> image.content == ImageContent::Color
            &&& found.1 is Some
            &&& found.1->0.x == glyph.x && found.1->0.y == glyph.y
            &&& found.1->0.width == glyph.width && found.1->0.height == glyph.height
            &&& ({
                let rect = after.placed[after.entries[key].slot->0];
                &&& rect.0 + 1 == glyph.x && rect.1 + 1 == glyph.y
                &&& glyph.x + glyph.width + 1 <= rect.2 <= before.size
                &&& glyph.y + glyph.height + 1 <= rect.3 <= before.size
            })
        },
        found.0 is None ==> !after.entries.contains_key(key) && found.1 is None
            && after.needs_reset,
        at_once ==> found.0 is Some && forall|other: u128|
            other != key ==> #[trigger] after.entries.contains_key(other)
                == before.entries.contains_key(other),
{
    let base = if at_once {
        before
    } else {
        before.evicted()
    };
    if let Some(glyph) = found.0 {
        let (id, rect) = choose|id: u32, rect: Edges| #[trigger]
            base.may_place(id, rect, image.width + 2 * PADDING, image.height + 2 * PADDING)
                && glyph == entry_at(image, rect.0 as int, rect.1 as int) && after
                == base.with_place(id, rect).cached(key, Some(glyph), Some(id));
        assert(base.may_place(id, rect, image.width + 2 * PADDING, image.height + 2 * PADDING));
        assert(after.placed[id] == rect);
    }
}

} // verus!
