//! The renderer's bookkeeping: blocks, their instances, the glyphs these refer to, and what
//! a frame has to upload and draw.
//!
//! Content lives in retained blocks. Setting a block's content uploads only its own
//! instances again, moving it uploads a uniform, and a frame in which nothing changed has
//! nothing to upload. The immediate-mode calls are a thin layer over one block that is
//! built anew every frame.
use crate::arena;
use crate::atlas;
use crate::atlas::{Atlas, AtlasKey, AtlasState, GlyphEntry, GlyphImage, TextureWrite};
use crate::bands::BANDED_FLAG;
use crate::bits;
use crate::blocks;
use crate::blocks::{BlockId, BlockState, TableState};
use crate::color::Color;
use crate::curves;
use crate::curves::{CurveStore, GlyphCurves, GlyphKey, Outline, RowUpload, StoreState};
use crate::retained;
use crate::retained::{
    ContentPlan, Draw, Retained, RetainedState, Staged, StagedState, UniformPlan, UploadStats,
    ATLAS, BLEND, CHIPS, LAYERS, LINES, OVER, UNDER, VECTOR,
};
use crate::scene::DecorationKind;
use std::collections::HashSet;
use vstd::prelude::*;

verus! {

broadcast use vstd::std_specs::hash::group_hash_axioms;

/// Which side of the text a rectangle is drawn on.
#[derive(Clone, Copy, Debug, PartialEq, Eq, Structural)]
pub enum RectLayer {
    /// Behind the glyphs: selection backgrounds.
    Under,
    /// In front of the glyphs: highlights.
    Over,
}

/// A list with a key in it, once.
pub open spec fn with_curve_key(keys: Seq<GlyphKey>, key: GlyphKey) -> Seq<GlyphKey> {
    if keys.contains(key) {
        keys
    } else {
        keys.push(key)
    }
}

/// A list with a key in it, once.
pub open spec fn with_atlas_key(keys: Seq<AtlasKey>, key: AtlasKey) -> Seq<AtlasKey> {
    if keys.contains(key) {
        keys
    } else {
        keys.push(key)
    }
}

/// Nothing staged.
pub open spec fn blank_staged(collect_keys: bool) -> StagedState {
    StagedState {
        layers: Seq::new(LAYERS as nat, |l: int| Seq::empty()),
        curve_keys: Seq::empty(),
        atlas_keys: Seq::empty(),
        collect_keys,
        stale: false,
    }
}

/// Content with one more instance on a layer.
pub open spec fn with_instance(staged: StagedState, layer: int, words: Seq<u32>) -> StagedState {
    StagedState {
        layers: staged.layers.update(layer, staged.layers[layer] + words),
        ..staged
    }
}

/// Instances being built, before they are put into a block. Only one block is built at a
/// time.
pub struct Scratch {
    staged: Staged,
    /// The numbers of the glyphs that are listed already.
    curve_numbers: HashSet<u128>,
    atlas_numbers: HashSet<u128>,
}

impl View for Scratch {
    type V = StagedState;

    closed spec fn view(&self) -> StagedState {
        self.staged@
    }
}

impl Scratch {
    /// Whole instances, and no glyph listed twice.
    pub closed spec fn wf(&self) -> bool {
        &&& self@.valid()
        &&& self@.curve_keys.no_duplicates()
        &&& self@.atlas_keys.no_duplicates()
        &&& forall|key: GlyphKey| #[trigger]
            self@.curve_keys.contains(key) <==> self.curve_numbers@.contains(
                key.number() as u128,
            )
        &&& forall|key: AtlasKey| #[trigger]
            self@.atlas_keys.contains(key) <==> self.atlas_numbers@.contains(
                key.number() as u128,
            )
    }

    /// What follows from the invariant.
    pub proof fn lemma_valid(&self)
        requires
            self.wf(),
        ensures
            self@.valid(),
            self@.curve_keys.no_duplicates(),
            self@.atlas_keys.no_duplicates(),
    {
    }

    /// Nothing staged.
    pub fn new(collect_keys: bool) -> (scratch: Scratch)
        ensures
            scratch.wf(),
            scratch@ == blank_staged(collect_keys),
    {
        let mut layers: Vec<Vec<u32>> = Vec::new();
        let mut l: usize = 0;
        while l < LAYERS
            invariant
                l <= LAYERS,
                layers@.len() == l,
                forall|k: int| 0 <= k < l ==> (#[trigger] layers@[k])@ == Seq::<u32>::empty(),
            decreases LAYERS - l,
        {
            layers.push(Vec::new());
            l = l + 1;
        }
        let scratch = Scratch {
            staged: Staged {
                layers,
                curve_keys: Vec::new(),
                atlas_keys: Vec::new(),
                collect_keys,
                stale: false,
            },
            curve_numbers: HashSet::new(),
            atlas_numbers: HashSet::new(),
        };
        proof {
            assert(scratch@.layers =~= blank_staged(collect_keys).layers);
            assert(scratch@.curve_keys =~= Seq::empty());
            assert(scratch@.atlas_keys =~= Seq::empty());
            assert forall|l: int| 0 <= l < LAYERS implies (#[trigger] scratch@.layers[l]).len()
                % (retained::stride_of(l) as nat) == 0 by {
                assert(scratch@.layers[l].len() == 0);
            }
        }
        scratch
    }

    /// What is staged.
    pub fn staged(&self) -> (staged: &Staged)
        ensures
            staged@ == self@,
    {
        &self.staged
    }

    /// Adds an instance to a layer. `words` is what it is made of.
    pub fn push(&mut self, layer: usize, words: &[u32])
        requires
            old(self).wf(),
            layer < LAYERS,
            words@.len() == retained::stride_of(layer as int),
        ensures
            final(self).wf(),
            final(self)@ == with_instance(old(self)@, layer as int, words@),
    {
        let ghost before = self@;
        self.staged.layers[layer].extend_from_slice(words);
        proof {
            let after = with_instance(before, layer as int, words@);
            assert(self@.layers[layer as int] =~= before.layers[layer as int] + words@);
            assert(self@.layers =~= after.layers);
            assert forall|l: int| 0 <= l < LAYERS implies (#[trigger] self@.layers[l]).len()
                % (retained::stride_of(l) as nat) == 0 by {
                assert(before.layers[l].len() % (retained::stride_of(l) as nat) == 0);
                if l == layer {
                    vstd::arithmetic::div_mod::lemma_mod_add_multiples_vanish(
                        before.layers[l].len() as int,
                        retained::stride_of(l),
                    );
                }
            }
        }
    }

    /// Lists a glyph drawn from its curves, where glyphs are to be listed.
    pub fn note_curves(&mut self, key: GlyphKey)
        requires
            old(self).wf(),
        ensures
            final(self).wf(),
            final(self)@ == (StagedState {
                curve_keys: if old(self)@.collect_keys {
                    with_curve_key(old(self)@.curve_keys, key)
                } else {
                    old(self)@.curve_keys
                },
                ..old(self)@
            }),
    {
        if !self.staged.collect_keys {
            return;
        }
        let ghost before = *self;
        let fresh: bool = self.curve_numbers.insert(key.pack());
        assert(fresh == !before@.curve_keys.contains(key));
        if fresh {
            self.staged.curve_keys.push(key);
        }
        proof {
            let keys = self@.curve_keys;
            assert(self@.layers =~= before@.layers);
            assert forall|other: GlyphKey| #[trigger] keys.contains(other)
                <==> self.curve_numbers@.contains(other.number() as u128) by {
                lemma_curve_number(other);
                lemma_curve_number(key);
                if other.number() == key.number() {
                    curves::lemma_key_number_injective(other, key);
                }
                if fresh {
                    lemma_push_contains(before@.curve_keys, key, other);
                }
                assert(before@.curve_keys.contains(other) <==> before.curve_numbers@.contains(
                    other.number() as u128,
                ));
            }
            assert(keys.no_duplicates()) by {
                if fresh {
                    assert(!before@.curve_keys.contains(key));
                }
            }
            assert forall|l: int| 0 <= l < LAYERS implies (#[trigger] self@.layers[l]).len()
                % (retained::stride_of(l) as nat) == 0 by {
                assert(before@.layers[l].len() % (retained::stride_of(l) as nat) == 0);
            }
            assert forall|other: AtlasKey| #[trigger] self@.atlas_keys.contains(other)
                <==> self.atlas_numbers@.contains(other.number() as u128) by {
                assert(before@.atlas_keys.contains(other) <==> before.atlas_numbers@.contains(
                    other.number() as u128,
                ));
            }
        }
    }

    /// Lists a glyph drawn from the atlas, where glyphs are to be listed.
    pub fn note_atlas(&mut self, key: AtlasKey)
        requires
            old(self).wf(),
        ensures
            final(self).wf(),
            final(self)@ == (StagedState {
                atlas_keys: if old(self)@.collect_keys {
                    with_atlas_key(old(self)@.atlas_keys, key)
                } else {
                    old(self)@.atlas_keys
                },
                ..old(self)@
            }),
    {
        if !self.staged.collect_keys {
            return;
        }
        let ghost before = *self;
        let fresh: bool = self.atlas_numbers.insert(key.pack());
        assert(fresh == !before@.atlas_keys.contains(key));
        if fresh {
            self.staged.atlas_keys.push(key);
        }
        proof {
            let keys = self@.atlas_keys;
            assert(self@.layers =~= before@.layers);
            assert forall|other: AtlasKey| #[trigger] keys.contains(other)
                <==> self.atlas_numbers@.contains(other.number() as u128) by {
                lemma_atlas_number(other);
                lemma_atlas_number(key);
                if other.number() == key.number() {
                    atlas::lemma_atlas_key_injective(other, key);
                }
                if fresh {
                    lemma_push_contains(before@.atlas_keys, key, other);
                }
                assert(before@.atlas_keys.contains(other) <==> before.atlas_numbers@.contains(
                    other.number() as u128,
                ));
            }
            assert(keys.no_duplicates()) by {
                if fresh {
                    assert(!before@.atlas_keys.contains(key));
                }
            }
            assert forall|l: int| 0 <= l < LAYERS implies (#[trigger] self@.layers[l]).len()
                % (retained::stride_of(l) as nat) == 0 by {
                assert(before@.layers[l].len() % (retained::stride_of(l) as nat) == 0);
            }
            assert forall|other: GlyphKey| #[trigger] self@.curve_keys.contains(other)
                <==> self.curve_numbers@.contains(other.number() as u128) by {
                assert(before@.curve_keys.contains(other) <==> before.curve_numbers@.contains(
                    other.number() as u128,
                ));
            }
        }
    }

    /// Says that a glyph could not be drawn, if it could not.
    pub fn note_stale(&mut self, stale: bool)
        requires
            old(self).wf(),
        ensures
            final(self).wf(),
            final(self)@ == (StagedState { stale: old(self)@.stale || stale, ..old(self)@ }),
    {
        let ghost before = *self;
        self.staged.stale = self.staged.stale || stale;
        proof {
            assert(self@.layers =~= before@.layers);
            assert forall|l: int| 0 <= l < LAYERS implies (#[trigger] self@.layers[l]).len()
                % (retained::stride_of(l) as nat) == 0 by {
                assert(before@.layers[l].len() % (retained::stride_of(l) as nat) == 0);
            }
            assert forall|other: GlyphKey| #[trigger] self@.curve_keys.contains(other)
                <==> self.curve_numbers@.contains(other.number() as u128) by {
                assert(before@.curve_keys.contains(other) <==> before.curve_numbers@.contains(
                    other.number() as u128,
                ));
            }
            assert forall|other: AtlasKey| #[trigger] self@.atlas_keys.contains(other)
                <==> self.atlas_numbers@.contains(other.number() as u128) by {
                assert(before@.atlas_keys.contains(other) <==> before.atlas_numbers@.contains(
                    other.number() as u128,
                ));
            }
        }
    }
}

proof fn lemma_push_contains<K>(keys: Seq<K>, key: K, other: K)
    ensures
        keys.push(key).contains(other) <==> keys.contains(other) || other == key,
{
    if keys.push(key).contains(other) && other != key {
        let i = choose|i: int| 0 <= i < keys.push(key).len() && keys.push(key)[i] == other;
        assert(keys[i] == other);
    }
    if keys.contains(other) {
        let i = choose|i: int| 0 <= i < keys.len() && keys[i] == other;
        assert(keys.push(key)[i] == other);
    }
    assert(keys.push(key)[keys.len() as int] == key);
}

proof fn lemma_curve_number(key: GlyphKey)
    ensures
        0 <= key.number() <= u128::MAX,
{
}

proof fn lemma_atlas_number(key: AtlasKey)
    ensures
        0 <= key.number() <= u128::MAX,
{
}

/// Geometry of a glyph drawn from its curves, as bit patterns.
#[derive(Clone, Copy, Debug)]
pub struct VectorGeometry {
    pub pos: (u32, u32),
    pub size: (u32, u32),
    pub em_pos: (u32, u32),
    pub em_size: (u32, u32),
    pub color: [u32; 4],
    pub band_scale: (u32, u32),
    pub band_bias: (u32, u32),
    pub weight_t: u32,
}

/// Geometry of a glyph drawn from the atlas, as bit patterns.
#[derive(Clone, Copy, Debug)]
pub struct AtlasGeometry {
    pub pos: (u32, u32),
    pub size: (u32, u32),
    pub uv_pos: (u32, u32),
    pub uv_size: (u32, u32),
    pub color: [u32; 4],
}

/// The position between its two masters at which a glyph is drawn: the one asked for, else
/// that of the glyph's own weight.
pub fn pick_weight(given: Option<u32>, glyph: &GlyphCurves) -> (t: u32)
    ensures
        t == (match given {
            Some(own) => own,
            None => glyph.weight_t,
        }),
{
    match given {
        Some(own) => own,
        None => glyph.weight_t,
    }
}

/// The color a glyph is drawn in: its own where it has one, else that of the text.
pub fn pick_color(own: Option<Color>, default_color: Color) -> (color: Color)
    ensures
        color == (match own {
            Some(own) => own,
            None => default_color,
        }),
{
    match own {
        Some(own) => own,
        None => default_color,
    }
}

/// The words of an instance of a rectangle.
pub open spec fn rect_words(rect: [u32; 4], color: [u32; 4]) -> Seq<u32> {
    seq![
        rect@[0],
        rect@[1],
        rect@[2],
        rect@[3],
        color@[0],
        color@[1],
        color@[2],
        color@[3],
    ]
}

/// The words of an instance of a decoration.
pub open spec fn decoration_words(rect: [u32; 4], kind: DecorationKind, color: [u32; 4]) -> Seq<
    u32,
> {
    rect_words(rect, color) + seq![
        match kind {
            DecorationKind::Underline => 0u32,
            DecorationKind::Strikethrough => 1u32,
            DecorationKind::Squiggle => 2u32,
            DecorationKind::Chip { radius_px } => 3u32,
        },
        match kind {
            DecorationKind::Chip { radius_px } => radius_px,
            _ => 0u32,
        },
        0u32,
        0u32,
    ]
}

/// The curve count that an instance of a glyph holds, tagged where there are band tables.
pub open spec fn tagged_count(glyph: GlyphCurves) -> u32 {
    if glyph.banded {
        (glyph.count + BANDED_FLAG) as u32
    } else {
        glyph.count
    }
}

/// The base texel of a glyph's second master that an instance holds, 0 without one.
pub open spec fn second_base(glyph: GlyphCurves) -> u32 {
    if glyph.dual_master {
        (glyph.first + glyph.record_texels) as u32
    } else {
        0
    }
}

/// The words of an instance of a glyph drawn from its curves.
pub open spec fn vector_words(glyph: GlyphCurves, at: VectorGeometry) -> Seq<u32> {
    seq![
        at.pos.0,
        at.pos.1,
        at.size.0,
        at.size.1,
        at.em_pos.0,
        at.em_pos.1,
        at.em_size.0,
        at.em_size.1,
        at.color@[0],
        at.color@[1],
        at.color@[2],
        at.color@[3],
        glyph.first,
        tagged_count(glyph),
        at.band_scale.0,
        at.band_scale.1,
        at.band_bias.0,
        at.band_bias.1,
        at.weight_t,
        second_base(glyph),
    ]
}

/// The words of an instance of a glyph drawn from the atlas.
pub open spec fn atlas_words(is_color: bool, at: AtlasGeometry) -> Seq<u32> {
    seq![
        at.pos.0,
        at.pos.1,
        at.size.0,
        at.size.1,
        at.uv_pos.0,
        at.uv_pos.1,
        at.uv_size.0,
        at.uv_size.1,
        at.color@[0],
        at.color@[1],
        at.color@[2],
        at.color@[3],
        if is_color {
            1u32
        } else {
            0u32
        },
        0u32,
        0u32,
        0u32,
    ]
}

/// An instance of a rectangle reads back: every number of the rectangle and of the color
/// stands at its own word.
pub proof fn lemma_rect_reads_back(rect: [u32; 4], color: [u32; 4])
    ensures
        ({
            let words = rect_words(rect, color);
            &&& words.len() == retained::RECT_WORDS
            &&& words[retained::X_WORD as int] == rect@[0]
            &&& words[retained::Y_WORD as int] == rect@[1]
            &&& words[retained::WIDTH_WORD as int] == rect@[2]
            &&& words[retained::HEIGHT_WORD as int] == rect@[3]
            &&& forall|c: int|
                0 <= c < 4 ==> words[retained::RECT_COLOR_WORD + c] == #[trigger] color@[c]
        }),
{
}

/// An instance of a decoration reads back: its rectangle and color as a rectangle's, its
/// kind by a number that no other kind has, and a chip's radius.
#[verifier::spinoff_prover]
pub proof fn lemma_decoration_reads_back(
    rect: [u32; 4],
    kind: DecorationKind,
    color: [u32; 4],
    other_rect: [u32; 4],
    other: DecorationKind,
    other_color: [u32; 4],
)
    ensures
        ({
            let words = decoration_words(rect, kind, color);
            &&& words.len() == retained::DECORATION_WORDS
            &&& words[retained::X_WORD as int] == rect@[0]
            &&& words[retained::Y_WORD as int] == rect@[1]
            &&& words[retained::WIDTH_WORD as int] == rect@[2]
            &&& words[retained::HEIGHT_WORD as int] == rect@[3]
            &&& forall|c: int|
                0 <= c < 4 ==> words[retained::RECT_COLOR_WORD + c] == #[trigger] color@[c]
            &&& words[retained::KIND_WORD as int] == 0 <==> kind is Underline
            &&& words[retained::KIND_WORD as int] == 1 <==> kind is Strikethrough
            &&& words[retained::KIND_WORD as int] == 2 <==> kind is Squiggle
            &&& words[retained::KIND_WORD as int] == 3 <==> kind is Chip
            &&& kind matches DecorationKind::Chip { radius_px } ==> words[retained::RADIUS_WORD as int]
                == radius_px
        }),
        decoration_words(rect, kind, color) == decoration_words(other_rect, other, other_color)
            ==> kind == other && rect@ == other_rect@ && color@ == other_color@,
{
    let words = decoration_words(rect, kind, color);
    let others = decoration_words(other_rect, other, other_color);
    lemma_decoration_word(rect, kind, color, words);
    lemma_decoration_word(other_rect, other, other_color, others);
    assert(words[0] == rect@[0] && words[1] == rect@[1] && words[2] == rect@[2] && words[3]
        == rect@[3]);
    if words == others {
        assert(rect@ =~= other_rect@);
        assert(color@ =~= other_color@);
    }
}

proof fn lemma_decoration_word(rect: [u32; 4], kind: DecorationKind, color: [u32; 4], words: Seq<u32>)
    requires
        words == decoration_words(rect, kind, color),
    ensures
        forall|c: int| 0 <= c < 4 ==> words[c] == #[trigger] rect@[c],
        forall|c: int| 0 <= c < 4 ==> words[4 + c] == #[trigger] color@[c],
        words.len() == 12,
        words[8] == (match kind {
            DecorationKind::Underline => 0u32,
            DecorationKind::Strikethrough => 1u32,
            DecorationKind::Squiggle => 2u32,
            DecorationKind::Chip { radius_px } => 3u32,
        }),
        kind matches DecorationKind::Chip { radius_px } ==> words[9] == radius_px,
{
}

/// An instance of a glyph drawn from its curves reads back: every number of its geometry
/// stands at its own word, and so do the glyph's base texel, its curve count with the mark
/// of band tables, and the base texel of its second master.
pub proof fn lemma_vector_reads_back(glyph: GlyphCurves, at: VectorGeometry)
    requires
        glyph.count < BANDED_FLAG,
        glyph.dual_master ==> glyph.first + glyph.record_texels <= u32::MAX,
    ensures
        ({
            let words = vector_words(glyph, at);
            &&& words.len() == retained::VECTOR_WORDS
            &&& words[retained::X_WORD as int] == at.pos.0
            &&& words[retained::Y_WORD as int] == at.pos.1
            &&& words[retained::WIDTH_WORD as int] == at.size.0
            &&& words[retained::HEIGHT_WORD as int] == at.size.1
            &&& words[retained::SOURCE_WORD as int] == at.em_pos.0
            &&& words[retained::SOURCE_WORD + 1] == at.em_pos.1
            &&& words[retained::SOURCE_SIZE_WORD as int] == at.em_size.0
            &&& words[retained::SOURCE_SIZE_WORD + 1] == at.em_size.1
            &&& forall|c: int|
                0 <= c < 4 ==> words[retained::GLYPH_COLOR_WORD + c] == #[trigger] at.color@[c]
            &&& words[retained::BAND_SCALE_WORD as int] == at.band_scale.0
            &&& words[retained::BAND_SCALE_WORD + 1] == at.band_scale.1
            &&& words[retained::BAND_BIAS_WORD as int] == at.band_bias.0
            &&& words[retained::BAND_BIAS_WORD + 1] == at.band_bias.1
            &&& words[retained::WEIGHT_WORD as int] == at.weight_t
            &&& words[retained::FIRST_WORD as int] == glyph.first
            &&& words[retained::COUNT_WORD as int] as int % (BANDED_FLAG as int) == glyph.count
            &&& words[retained::COUNT_WORD as int] >= BANDED_FLAG <==> glyph.banded
            &&& glyph.dual_master ==> words[retained::B_FIRST_WORD as int] == glyph.first
                + glyph.record_texels
            &&& !glyph.dual_master ==> words[retained::B_FIRST_WORD as int] == 0
        }),
{
}

/// Two instances of curves with the same words are of the same geometry.
#[verifier::spinoff_prover]
pub proof fn lemma_vector_words_injective(
    glyph: GlyphCurves,
    at: VectorGeometry,
    other_glyph: GlyphCurves,
    other: VectorGeometry,
)
    requires
        vector_words(glyph, at) == vector_words(other_glyph, other),
    ensures
        at.pos == other.pos,
        at.size == other.size,
        at.em_pos == other.em_pos,
        at.em_size == other.em_size,
        at.color@ == other.color@,
        at.band_scale == other.band_scale,
        at.band_bias == other.band_bias,
        at.weight_t == other.weight_t,
        glyph.first == other_glyph.first,
{
    let words = vector_words(glyph, at);
    let others = vector_words(other_glyph, other);
    assert(words[0] == others[0] && words[1] == others[1] && words[2] == others[2] && words[3]
        == others[3]);
    assert(words[4] == others[4] && words[5] == others[5] && words[6] == others[6] && words[7]
        == others[7]);
    assert(words[8] == others[8] && words[9] == others[9] && words[10] == others[10] && words[11]
        == others[11]);
    assert(words[12] == others[12] && words[14] == others[14] && words[15] == others[15]
        && words[16] == others[16] && words[17] == others[17] && words[18] == others[18]);
    assert(at.color@ =~= other.color@);
}

/// An instance out of the atlas reads back: every number of its geometry stands at its own
/// word, and so does whether its pixels have colors of their own.
pub proof fn lemma_atlas_reads_back(is_color: bool, at: AtlasGeometry)
    ensures
        ({
            let words = atlas_words(is_color, at);
            &&& words.len() == retained::ATLAS_WORDS
            &&& words[retained::X_WORD as int] == at.pos.0
            &&& words[retained::Y_WORD as int] == at.pos.1
            &&& words[retained::WIDTH_WORD as int] == at.size.0
            &&& words[retained::HEIGHT_WORD as int] == at.size.1
            &&& words[retained::SOURCE_WORD as int] == at.uv_pos.0
            &&& words[retained::SOURCE_WORD + 1] == at.uv_pos.1
            &&& words[retained::SOURCE_SIZE_WORD as int] == at.uv_size.0
            &&& words[retained::SOURCE_SIZE_WORD + 1] == at.uv_size.1
            &&& forall|c: int|
                0 <= c < 4 ==> words[retained::GLYPH_COLOR_WORD + c] == #[trigger] at.color@[c]
            &&& words[retained::IS_COLOR_WORD as int] == 1 <==> is_color
            &&& words[retained::IS_COLOR_WORD as int] == 0 <==> !is_color
        }),
{
}

/// Staging an instance puts its words behind those of its layer, and leaves every other
/// layer and all that is noted of the content.
pub proof fn lemma_staged_behind(staged: StagedState, layer: int, words: Seq<u32>, l: int, w: int)
    requires
        staged.layers.len() == LAYERS,
        0 <= layer < LAYERS,
        0 <= l < LAYERS,
    ensures
        ({
            let after = with_instance(staged, layer, words);
            &&& after.layers.len() == LAYERS
            &&& l != layer ==> after.layers[l] == staged.layers[l]
            &&& after.layers[layer].len() == staged.layers[layer].len() + words.len()
            &&& 0 <= w < staged.layers[layer].len() ==> after.layers[layer][w]
                == staged.layers[layer][w]
            &&& 0 <= w < words.len() ==> after.layers[layer][staged.layers[layer].len() + w]
                == words[w]
            &&& after.curve_keys == staged.curve_keys
            &&& after.atlas_keys == staged.atlas_keys
            &&& after.collect_keys == staged.collect_keys
            &&& after.stale == staged.stale
        }),
{
}

/// How a glyph is drawn.
#[derive(Clone, Copy, Debug)]
pub enum GlyphRoute {
    /// There is nothing to draw.
    Blank,
    /// From its curves.
    Vector(GlyphCurves),
    /// From a bitmap, for lack of an outline or of room for it.
    Bitmap,
}

/// What a [`TextRenderer`] holds.
pub ghost struct RendererState {
    pub retained: RetainedState,
    pub curves: StoreState,
    pub atlas: AtlasState,
    pub frame: u64,
    /// The curve texture that the bindings were made for.
    pub curves_generation: int,
    /// The packing of curves that the instances were built for.
    pub curves_layout: int,
    /// The atlas that the instances were built for.
    pub atlas_generation: int,
    /// The block that the immediate-mode calls draw into, and whether they drew.
    pub transient: u32,
    pub transient_pending: bool,
    pub scratch: StagedState,
    pub screen_size: (u32, u32),
    pub globals_dirty: bool,
    pub uploads: UploadStats,
}

/// A store with the first `n` keys stamped as used.
pub open spec fn curves_touched(store: StoreState, keys: Seq<GlyphKey>, n: int, frame: u64) -> StoreState
    decreases n,
{
    if n <= 0 {
        store
    } else {
        curves_touched(store, keys, n - 1, frame).touched(keys[n - 1].number() as u128, frame)
    }
}

/// A store with the glyphs of the first `n` blocks stamped as used.
pub open spec fn curves_in_use(store: StoreState, blocks: Seq<BlockState>, n: int, frame: u64) -> StoreState
    decreases n,
{
    if n <= 0 {
        store
    } else {
        curves_touched(
            curves_in_use(store, blocks, n - 1, frame),
            blocks[n - 1].curve_keys,
            blocks[n - 1].curve_keys.len() as int,
            frame,
        )
    }
}

/// An atlas with the first `n` keys stamped as used.
pub open spec fn atlas_touched(state: AtlasState, keys: Seq<AtlasKey>, n: int, frame: u64) -> AtlasState
    decreases n,
{
    if n <= 0 {
        state
    } else {
        atlas_touched(state, keys, n - 1, frame).touched(keys[n - 1].number() as u128, frame)
    }
}

/// An atlas with the glyphs of the first `n` blocks stamped as used.
pub open spec fn atlas_in_use(state: AtlasState, blocks: Seq<BlockState>, n: int, frame: u64) -> AtlasState
    decreases n,
{
    if n <= 0 {
        state
    } else {
        atlas_touched(
            atlas_in_use(state, blocks, n - 1, frame),
            blocks[n - 1].atlas_keys,
            blocks[n - 1].atlas_keys.len() as int,
            frame,
        )
    }
}

/// The store at the start of a frame: whatever the blocks refer to is in use, and an
/// eviction that the last frame deferred is run.
pub open spec fn curves_begin(before: StoreState, frame: u64, after: StoreState) -> bool {
    if before.needs_compact {
        exists|order: Seq<u128>| #[trigger]
            before.survivors(order) && (StoreState { frame, ..before }).compacted(order, after)
    } else {
        after == (StoreState { frame, ..before })
    }
}

/// The retained content at the start of a frame: where curves were moved, the instances are
/// pointed at their new places, and where the atlas was reset, its instances are collapsed.
pub open spec fn retained_begin(
    before: RetainedState,
    moves: Option<Map<u32, u32>>,
    reset: bool,
    after: RetainedState,
) -> bool {
    exists|middle: RetainedState|
        {
            &&& #[trigger] middle.valid()
            &&& match moves {
                Some(map) => retained::relocates(before, map, middle),
                None => middle == before,
            }
            &&& if reset {
                retained::blanks(middle, after)
            } else {
                after == middle
            }
        }
}

/// What starting a frame does.
pub open spec fn frame_begins(before: RendererState, after: RendererState) -> bool {
    let frame = (before.frame + 1) as u64;
    let blocks = before.retained.table.blocks;
    let curves = curves_in_use(before.curves, blocks, blocks.len() as int, frame);
    let atlas = atlas_in_use(before.atlas, blocks, blocks.len() as int, frame);
    &&& curves_begin(curves, frame, after.curves)
    &&& after.atlas == AtlasState {
        frame,
        ..if atlas.needs_reset {
            atlas.reset()
        } else {
            atlas
        }
    }
    &&& retained_begin(
        before.retained,
        if before.curves_layout != after.curves.layout_generation {
            Some(after.curves.relocations)
        } else {
            None
        },
        before.atlas_generation != after.atlas.generation,
        after.retained,
    )
    &&& after == RendererState {
        retained: after.retained,
        curves: after.curves,
        atlas: after.atlas,
        frame,
        curves_layout: after.curves.layout_generation,
        atlas_generation: after.atlas.generation,
        ..before
    }
}

/// A key that is listed is stamped, and one that is stamped stays stamped.
proof fn lemma_curves_touched(
    store: StoreState,
    keys: Seq<GlyphKey>,
    n: int,
    frame: u64,
    key: u128,
)
    requires
        0 <= n <= keys.len(),
        store.entries.contains_key(key),
    ensures
        curves_touched(store, keys, n, frame).entries.contains_key(key),
        curves_touched(store, keys, n, frame).entries[key].curves == store.entries[key].curves,
        store.entries[key].last_used == frame ==> curves_touched(
            store,
            keys,
            n,
            frame,
        ).entries[key].last_used == frame,
        forall|i: int|
            0 <= i < n && (#[trigger] keys[i]).number() == key ==> curves_touched(
                store,
                keys,
                n,
                frame,
            ).entries[key].last_used == frame,
    decreases n,
{
    if n > 0 {
        lemma_curves_touched(store, keys, n - 1, frame, key);
        lemma_curve_number(keys[n - 1]);
    }
}

/// Retained content is in use: at the start of a frame, before anything is evicted, every
/// stored glyph that a block's instances refer to counts as drawn on that frame.
pub proof fn lemma_retained_glyphs_in_use(
    store: StoreState,
    blocks: Seq<BlockState>,
    n: int,
    frame: u64,
    i: int,
    k: int,
)
    requires
        0 <= i < n <= blocks.len(),
        0 <= k < blocks[i].curve_keys.len(),
        store.entries.contains_key(blocks[i].curve_keys[k].number() as u128),
    ensures
        ({
            let key = blocks[i].curve_keys[k].number() as u128;
            let after = curves_in_use(store, blocks, n, frame);
            &&& after.entries.contains_key(key)
            &&& after.entries[key].last_used == frame
            &&& after.entries[key].curves == store.entries[key].curves
        }),
    decreases n,
{
    let key = blocks[i].curve_keys[k].number() as u128;
    let before = curves_in_use(store, blocks, n - 1, frame);
    lemma_curve_number(blocks[i].curve_keys[k]);
    if i < n - 1 {
        lemma_retained_glyphs_in_use(store, blocks, n - 1, frame, i, k);
    } else {
        lemma_in_use_keeps(store, blocks, n - 1, frame, key);
    }
    lemma_curves_touched(
        before,
        blocks[n - 1].curve_keys,
        blocks[n - 1].curve_keys.len() as int,
        frame,
        key,
    );
}

proof fn lemma_in_use_keeps(
    store: StoreState,
    blocks: Seq<BlockState>,
    n: int,
    frame: u64,
    key: u128,
)
    requires
        0 <= n <= blocks.len(),
        store.entries.contains_key(key),
    ensures
        curves_in_use(store, blocks, n, frame).entries.contains_key(key),
        curves_in_use(store, blocks, n, frame).entries[key].curves == store.entries[key].curves,
    decreases n,
{
    if n > 0 {
        lemma_in_use_keeps(store, blocks, n - 1, frame, key);
        lemma_curves_touched(
            curves_in_use(store, blocks, n - 1, frame),
            blocks[n - 1].curve_keys,
            blocks[n - 1].curve_keys.len() as int,
            frame,
            key,
        );
    }
}

/// What a frame has to upload.
pub struct Frame {
    /// The screen size, where it is to be written.
    pub globals: Option<(u32, u32)>,
    /// New rows of the curve texture.
    pub rows: Option<RowUpload>,
    /// Whether the curve texture was replaced, so that the bindings are to be made again.
    pub rebind: bool,
    pub uniforms: UniformPlan,
    pub content: ContentPlan,
}

/// The bookkeeping of a text renderer.
pub struct TextRenderer {
    retained: Retained,
    curves: CurveStore,
    atlas: Atlas,
    frame: u64,
    curves_generation: u64,
    curves_layout: u64,
    atlas_generation: u64,
    transient: u32,
    transient_pending: bool,
    scratch: Scratch,
    screen_size: (u32, u32),
    globals_dirty: bool,
    uploads: UploadStats,
}

impl View for TextRenderer {
    type V = RendererState;

    closed spec fn view(&self) -> RendererState {
        RendererState {
            retained: self.retained@,
            curves: self.curves@,
            atlas: self.atlas@,
            frame: self.frame,
            curves_generation: self.curves_generation as int,
            curves_layout: self.curves_layout as int,
            atlas_generation: self.atlas_generation as int,
            transient: self.transient,
            transient_pending: self.transient_pending,
            scratch: self.scratch@,
            screen_size: self.screen_size,
            globals_dirty: self.globals_dirty,
            uploads: self.uploads,
        }
    }
}

impl TextRenderer {
    /// All parts are valid.
    pub closed spec fn wf(&self) -> bool {
        &&& self.retained.wf()
        &&& self.curves.wf()
        &&& self.atlas.wf()
        &&& self.scratch.wf()
    }

    /// The atlas has room for the image without an eviction.
    pub closed spec fn atlas_has_room(&self, image: GlyphImage) -> bool {
        self.atlas.has_room(image)
    }

    /// The parts' states are valid.
    pub proof fn lemma_valid(&self)
        requires
            self.wf(),
        ensures
            self@.retained.valid(),
            self@.curves.valid(),
            self@.scratch.valid(),
    {
        self.retained.lemma_valid();
        self.scratch.lemma_valid();
    }

    /// A renderer around its glyph stores. The block of the immediate-mode calls comes
    /// first, so that all blocks to come are drawn over it.
    pub fn new(curves: CurveStore, atlas: Atlas) -> (renderer: TextRenderer)
        requires
            curves.wf(),
            atlas.wf(),
        ensures
            renderer.wf(),
            renderer@ == (RendererState {
                retained: retained::blank().created(),
                curves: curves@,
                atlas: atlas@,
                frame: 0,
                curves_generation: curves@.generation,
                curves_layout: curves@.layout_generation,
                atlas_generation: atlas@.generation,
                transient: 0,
                transient_pending: false,
                scratch: blank_staged(false),
                screen_size: (0, 0),
                globals_dirty: true,
                uploads: UploadStats { content_writes: 0, instances: 0, uniform_writes: 0 },
            }),
    {
        let mut retained: Retained = Retained::new();
        let transient: u32 = retained.create();
        let renderer = TextRenderer {
            retained,
            frame: 0,
            curves_generation: curves.generation(),
            curves_layout: curves.layout_generation(),
            atlas_generation: atlas.generation(),
            curves,
            atlas,
            transient,
            transient_pending: false,
            scratch: Scratch::new(false),
            screen_size: (0, 0),
            globals_dirty: true,
            uploads: UploadStats { content_writes: 0, instances: 0, uniform_writes: 0 },
        };
        renderer
    }

    /// The retained content.
    pub fn retained(&self) -> (retained: &Retained)
        ensures
            retained@ == self@.retained,
            self.wf() ==> retained.wf(),
    {
        &self.retained
    }

    /// The curves of glyphs.
    pub fn curves(&self) -> (curves: &CurveStore)
        ensures
            curves@ == self@.curves,
            self.wf() ==> curves.wf(),
    {
        &self.curves
    }

    /// The atlas of rasterized glyphs.
    pub fn atlas(&self) -> (atlas: &Atlas)
        ensures
            atlas@ == self@.atlas,
            self.wf() ==> atlas.wf(),
    {
        &self.atlas
    }

    /// Creates an empty block. Blocks are drawn in the order they are created.
    pub fn create_block(&mut self) -> (id: BlockId)
        requires
            old(self).wf(),
            old(self)@.retained.table.next_id < u32::MAX,
            old(self)@.retained.table.slot_top < u32::MAX,
        ensures
            final(self).wf(),
            id.number() == old(self)@.retained.table.next_id,
            final(self)@ == (RendererState {
                retained: old(self)@.retained.created(),
                ..old(self)@
            }),
    {
        BlockId::new(self.retained.create())
    }

    /// Drops a block, with its instances and its uniform. Nothing changes where it is gone
    /// already.
    pub fn drop_block(&mut self, id: BlockId)
        requires
            old(self).wf(),
        ensures
            final(self).wf(),
            !old(self)@.retained.table.has_block(id.number()) ==> final(self)@ == old(self)@,
            forall|i: int| #[trigger]
                old(self)@.retained.table.is_at(id.number(), i) ==> final(self)@ == (RendererState {
                    retained: old(self)@.retained.dropped(i),
                    ..old(self)@
                }),
    {
        proof {
            self.retained.lemma_valid();
        }
        if let Some(i) = self.retained.table().find(id.number()) {
            proof {
                assert(self@.retained.table.has_block(id.number()));
                assert forall|k: int| #[trigger] self@.retained.table.is_at(id.number(), k) implies k
                    == i by {
                    blocks::lemma_one_block(self@.retained.table, id.number(), k, i as int);
                }
            }
            self.retained.remove(i);
        }
    }

    /// Moves a block. No instance is touched.
    pub fn set_block_offset(&mut self, id: BlockId, offset: (u32, u32))
        requires
            old(self).wf(),
        ensures
            final(self).wf(),
            !old(self)@.retained.table.has_block(id.number()) ==> final(self)@ == old(self)@,
            forall|i: int| #[trigger]
                old(self)@.retained.table.is_at(id.number(), i) ==> final(self)@ == (RendererState {
                    retained: moved(old(self)@.retained, i, offset),
                    ..old(self)@
                }),
    {
        proof {
            self.retained.lemma_valid();
        }
        if let Some(i) = self.retained.table().find(id.number()) {
            proof {
                assert(self@.retained.table.has_block(id.number()));
                assert forall|k: int| #[trigger] self@.retained.table.is_at(id.number(), k) implies k
                    == i by {
                    blocks::lemma_one_block(self@.retained.table, id.number(), k, i as int);
                }
            }
            let at: (u32, u32) = self.retained.table().at(i).offset;
            if bits::same(at.0, offset.0) && bits::same(at.1, offset.1) {
                return;
            }
            self.retained.set_offset(i, offset);
        }
    }

    /// Shows or hides a block. A hidden block keeps its instances, so showing it again
    /// costs nothing.
    pub fn set_block_visible(&mut self, id: BlockId, visible: bool)
        requires
            old(self).wf(),
        ensures
            final(self).wf(),
            !old(self)@.retained.table.has_block(id.number()) ==> final(self)@ == old(self)@,
            forall|i: int| #[trigger]
                old(self)@.retained.table.is_at(id.number(), i) ==> final(self)@ == (RendererState {
                    retained: shown(old(self)@.retained, i, visible),
                    ..old(self)@
                }),
    {
        proof {
            self.retained.lemma_valid();
        }
        if let Some(i) = self.retained.table().find(id.number()) {
            proof {
                assert(self@.retained.table.has_block(id.number()));
                assert forall|k: int| #[trigger] self@.retained.table.is_at(id.number(), k) implies k
                    == i by {
                    blocks::lemma_one_block(self@.retained.table, id.number(), k, i as int);
                }
            }
            if self.retained.table().at(i).visible == visible {
                return;
            }
            self.retained.set_visible(i, visible);
        }
    }

    /// Whether anything changed since the last [`TextRenderer::finish`]. Where nothing did,
    /// the last frame is still right.
    pub fn damaged(&self) -> (yes: bool)
        ensures
            yes == self@.retained.damaged,
    {
        self.retained.damaged()
    }

    /// Whether a block lacks a glyph, or draws one by its fallback, for want of room when
    /// its content was set or since: setting its content again may draw it right.
    pub fn block_stale(&self, id: BlockId) -> (yes: bool)
        requires
            self.wf(),
        ensures
            yes == exists|i: int| #[trigger]
                self@.retained.table.is_at(id.number(), i) && self@.retained.table.blocks[i].stale,
    {
        proof {
            self.retained.lemma_valid();
        }
        match self.retained.table().find(id.number()) {
            Some(i) => {
                let stale: bool = self.retained.table().at(i).stale;
                proof {
                    assert(self@.retained.table.is_at(id.number(), i as int));
                    assert forall|k: int| #[trigger] self@.retained.table.is_at(id.number(), k) implies k
                        == i by {
                        blocks::lemma_one_block(self@.retained.table, id.number(), k, i as int);
                    }
                }
                stale
            },
            None => {
                assert(forall|k: int| !(#[trigger] self@.retained.table.is_at(id.number(), k)));
                false
            },
        }
    }

    /// What the last [`TextRenderer::finish`] uploaded.
    pub fn upload_stats(&self) -> (stats: UploadStats)
        ensures
            stats == self@.uploads,
    {
        self.uploads
    }

    /// Starts building the content of a block: the answer is no where there is no such
    /// block, and what was staged stays then.
    pub fn stage(&mut self, id: BlockId) -> (yes: bool)
        requires
            old(self).wf(),
        ensures
            final(self).wf(),
            yes == old(self)@.retained.table.has_block(id.number()),
            final(self)@ == (if yes {
                RendererState { scratch: blank_staged(true), ..old(self)@ }
            } else {
                old(self)@
            }),
    {
        proof {
            self.retained.lemma_valid();
        }
        match self.retained.table().find(id.number()) {
            Some(i) => {
                assert(self@.retained.table.is_at(id.number(), i as int));
                self.scratch = Scratch::new(true);
                true
            },
            None => false,
        }
    }

    /// Whether there is room for what is staged.
    pub fn has_room(&self) -> (yes: bool)
        requires
            self.wf(),
        ensures
            yes == self@.retained.has_room(self@.scratch),
    {
        proof {
            self.scratch.lemma_valid();
        }
        self.retained.has_room(self.scratch.staged())
    }

    /// Puts what is staged into a block, in place of what is there. Nothing changes where
    /// there is no such block.
    pub fn commit(&mut self, id: BlockId)
        requires
            old(self).wf(),
            old(self)@.retained.has_room(old(self)@.scratch),
        ensures
            final(self).wf(),
            !old(self)@.retained.table.has_block(id.number()) ==> final(self)@ == old(self)@,
            forall|i: int| #[trigger]
                old(self)@.retained.table.is_at(id.number(), i) ==> final(self)@ == (RendererState {
                    retained: old(self)@.retained.committed(i, old(self)@.scratch),
                    ..old(self)@
                }),
    {
        proof {
            self.retained.lemma_valid();
            self.scratch.lemma_valid();
        }
        if let Some(i) = self.retained.table().find(id.number()) {
            proof {
                assert(self@.retained.table.has_block(id.number()));
                assert forall|k: int| #[trigger] self@.retained.table.is_at(id.number(), k) implies k
                    == i by {
                    blocks::lemma_one_block(self@.retained.table, id.number(), k, i as int);
                }
            }
            self.retained.commit(i, self.scratch.staged());
        }
    }

    /// Stages a rectangle.
    pub fn push_rect(&mut self, rect: [u32; 4], color: [u32; 4], layer: RectLayer)
        requires
            old(self).wf(),
        ensures
            final(self).wf(),
            final(self)@ == (RendererState {
                scratch: with_instance(
                    old(self)@.scratch,
                    match layer {
                        RectLayer::Under => UNDER as int,
                        RectLayer::Over => OVER as int,
                    },
                    rect_words(rect, color),
                ),
                ..old(self)@
            }),
    {
        let words: [u32; 8] = [
            rect[0],
            rect[1],
            rect[2],
            rect[3],
            color[0],
            color[1],
            color[2],
            color[3],
        ];
        assert(words@ =~= rect_words(rect, color));
        match layer {
            RectLayer::Under => self.scratch.push(UNDER, words.as_slice()),
            RectLayer::Over => self.scratch.push(OVER, words.as_slice()),
        }
    }

    /// Stages a decoration: a chip behind the glyphs, a line over them.
    pub fn push_decoration(&mut self, rect: [u32; 4], kind: DecorationKind, color: [u32; 4])
        requires
            old(self).wf(),
        ensures
            final(self).wf(),
            final(self)@ == (RendererState {
                scratch: with_instance(
                    old(self)@.scratch,
                    if kind is Chip {
                        CHIPS as int
                    } else {
                        LINES as int
                    },
                    decoration_words(rect, kind, color),
                ),
                ..old(self)@
            }),
    {
        let (tag, radius): (u32, u32) = match kind {
            DecorationKind::Underline => (0, 0),
            DecorationKind::Strikethrough => (1, 0),
            DecorationKind::Squiggle => (2, 0),
            DecorationKind::Chip { radius_px } => (3, radius_px),
        };
        let words: [u32; 12] = [
            rect[0],
            rect[1],
            rect[2],
            rect[3],
            color[0],
            color[1],
            color[2],
            color[3],
            tag,
            radius,
            0,
            0,
        ];
        assert(words@ =~= decoration_words(rect, kind, color));
        match kind {
            DecorationKind::Chip { radius_px } => self.scratch.push(CHIPS, words.as_slice()),
            _ => self.scratch.push(LINES, words.as_slice()),
        }
    }

    /// Queues a decoration in immediate mode.
    pub fn decoration(&mut self, rect: [u32; 4], kind: DecorationKind, color: [u32; 4])
        requires
            old(self).wf(),
        ensures
            final(self).wf(),
            final(self)@ == (RendererState {
                scratch: with_instance(
                    old(self)@.scratch,
                    if kind is Chip {
                        CHIPS as int
                    } else {
                        LINES as int
                    },
                    decoration_words(rect, kind, color),
                ),
                transient_pending: true,
                ..old(self)@
            }),
    {
        self.push_decoration(rect, kind, color);
        self.transient_pending = true;
    }

    /// Queues a rectangle in immediate mode.
    pub fn rect(&mut self, pos: (u32, u32), size: (u32, u32), color: [u32; 4], layer: RectLayer)
        requires
            old(self).wf(),
        ensures
            final(self).wf(),
            final(self)@ == (RendererState {
                scratch: with_instance(
                    old(self)@.scratch,
                    match layer {
                        RectLayer::Under => UNDER as int,
                        RectLayer::Over => OVER as int,
                    },
                    rect_words([pos.0, pos.1, size.0, size.1], color),
                ),
                transient_pending: true,
                ..old(self)@
            }),
    {
        self.push_rect([pos.0, pos.1, size.0, size.1], color, layer);
        self.transient_pending = true;
    }

    /// Says that the immediate-mode calls drew.
    pub fn queue_transient(&mut self)
        requires
            old(self).wf(),
        ensures
            final(self).wf(),
            final(self)@ == (RendererState { transient_pending: true, ..old(self)@ }),
    {
        self.transient_pending = true;
    }

    /// Says how a glyph is to be drawn, storing its curves on first use. The outline is
    /// only read then. A glyph that finds no room for its curves is drawn from a bitmap,
    /// and the block is stale for it.
    pub fn route_glyph(&mut self, key: GlyphKey, outline: Option<&Outline>) -> (route: GlyphRoute)
        requires
            old(self).wf(),
            outline matches Some(o) ==> o@.valid(),
            old(self)@.curves.generation < u64::MAX,
        ensures
            final(self).wf(),
            ({
                let id = key.number() as u128;
                let state = old(self)@.curves;
                let shape = match outline {
                    Some(o) => Some(o@),
                    None => None,
                };
                let known = state.entries.contains_key(id);
                let after = if known {
                    state.touched(id, state.frame)
                } else {
                    state.offered(id, shape)
                };
                let found = if known {
                    state.entries[id].curves
                } else if after.entries.contains_key(id) {
                    after.entries[id].curves
                } else {
                    None
                };
                let scratch = old(self)@.scratch;
                &&& route == match found {
                    Some(glyph) => if glyph.count == 0 {
                        GlyphRoute::Blank
                    } else {
                        GlyphRoute::Vector(glyph)
                    },
                    None => GlyphRoute::Bitmap,
                }
                &&& final(self)@ == (RendererState {
                    curves: after,
                    scratch: match route {
                        GlyphRoute::Blank => scratch,
                        GlyphRoute::Vector(_) => StagedState {
                            curve_keys: if scratch.collect_keys {
                                with_curve_key(scratch.curve_keys, key)
                            } else {
                                scratch.curve_keys
                            },
                            ..scratch
                        },
                        GlyphRoute::Bitmap => StagedState {
                            stale: scratch.stale || after.needs_compact,
                            ..scratch
                        },
                    },
                    ..old(self)@
                })
            }),
    {
        match self.curves.get_or_insert(key, outline) {
            Some(glyph) => {
                if glyph.count == 0 {
                    return GlyphRoute::Blank;
                }
                self.scratch.note_curves(key);
                GlyphRoute::Vector(glyph)
            },
            None => {
                let overflowed: bool = self.curves.overflowed();
                self.scratch.note_stale(overflowed);
                GlyphRoute::Bitmap
            },
        }
    }

    /// Whether a glyph's outline has to be read to draw it.
    pub fn needs_outline(&mut self, key: GlyphKey) -> (yes: bool)
        requires
            old(self).wf(),
        ensures
            final(self).wf(),
            yes == !old(self)@.curves.entries.contains_key(key.number() as u128),
            final(self)@ == (RendererState {
                curves: old(self)@.curves.touched(
                    key.number() as u128,
                    old(self)@.curves.frame,
                ),
                ..old(self)@
            }),
    {
        self.curves.get(key).is_none()
    }

    /// Stages a glyph drawn from its curves: with those of two masters, or of one.
    pub fn push_vector(&mut self, glyph: &GlyphCurves, at: &VectorGeometry)
        requires
            old(self).wf(),
            glyph.count < BANDED_FLAG,
            glyph.dual_master ==> glyph.first + glyph.record_texels <= u32::MAX,
        ensures
            final(self).wf(),
            final(self)@ == (RendererState {
                scratch: with_instance(
                    old(self)@.scratch,
                    if second_base(*glyph) == 0 {
                        VECTOR as int
                    } else {
                        BLEND as int
                    },
                    vector_words(*glyph, *at),
                ),
                ..old(self)@
            }),
    {
        let count: u32 = glyph.instance_count();
        let b_first: u32 = glyph.b_first();
        let words: [u32; 20] = [
            at.pos.0,
            at.pos.1,
            at.size.0,
            at.size.1,
            at.em_pos.0,
            at.em_pos.1,
            at.em_size.0,
            at.em_size.1,
            at.color[0],
            at.color[1],
            at.color[2],
            at.color[3],
            glyph.first,
            count,
            at.band_scale.0,
            at.band_scale.1,
            at.band_bias.0,
            at.band_bias.1,
            at.weight_t,
            b_first,
        ];
        assert(words@ =~= vector_words(*glyph, *at));
        if b_first == 0 {
            self.scratch.push(VECTOR, words.as_slice());
        } else {
            self.scratch.push(BLEND, words.as_slice());
        }
    }

    /// Whether a glyph has to be rasterized to draw it.
    pub fn needs_image(&mut self, key: AtlasKey) -> (yes: bool)
        requires
            old(self).wf(),
        ensures
            final(self).wf(),
            yes == !old(self)@.atlas.entries.contains_key(key.number() as u128),
            final(self)@ == (RendererState {
                atlas: old(self)@.atlas.touched(key.number() as u128, old(self)@.atlas.frame),
                ..old(self)@
            }),
            forall|image: GlyphImage| #[trigger]
                final(self).atlas_has_room(image) == old(self).atlas_has_room(image),
    {
        self.atlas.get(key).is_none()
    }

    /// Finds a rasterized glyph in the atlas, or packs its image on first use. The pixels
    /// to write come back with it. A glyph that the atlas has no room for is skipped, and
    /// what is staged wants staging again once the atlas was reset.
    pub fn atlas_glyph(&mut self, key: AtlasKey, image: Option<&GlyphImage>) -> (found: (
        Option<GlyphEntry>,
        Option<TextureWrite>,
    ))
        requires
            old(self).wf(),
            image matches Some(pixels) ==> pixels.is_sane(),
        ensures
            final(self).wf(),
            ({
                let id = key.number() as u128;
                let before = old(self)@.atlas;
                let after = final(self)@.atlas;
                let scratch = old(self)@.scratch;
                let offers = image matches Some(pixels) && pixels.has_pixels();
                &&& if before.entries.contains_key(id) {
                    after == before.touched(id, before.frame) && found.0 == before.entries[id].glyph
                        && found.1 is None
                } else {
                    match image {
                        Some(pixels) if pixels.has_pixels() => atlas::offered(
                            before,
                            old(self).atlas_has_room(*pixels),
                            id,
                            *pixels,
                            after,
                            found,
                        ),
                        _ => after == before.cached(id, None, None) && found.0 is None
                            && found.1 is None,
                    }
                }
                &&& final(self)@ == (RendererState {
                    atlas: after,
                    scratch: StagedState {
                        atlas_keys: if found.0 is Some && scratch.collect_keys {
                            with_atlas_key(scratch.atlas_keys, key)
                        } else {
                            scratch.atlas_keys
                        },
                        stale: scratch.stale || !before.entries.contains_key(id) && offers
                            && found.0 is None,
                        ..scratch
                    },
                    ..old(self)@
                })
            }),
    {
        let (entry, write) = self.atlas.get_or_insert(key, image);
        if entry.is_some() {
            self.scratch.note_atlas(key);
        } else {
            let skipped: bool = !self.atlas.knows(key);
            self.scratch.note_stale(skipped);
        }
        (entry, write)
    }

    /// Stages a glyph drawn from the atlas.
    pub fn push_atlas(&mut self, is_color: bool, at: &AtlasGeometry)
        requires
            old(self).wf(),
        ensures
            final(self).wf(),
            final(self)@ == (RendererState {
                scratch: with_instance(
                    old(self)@.scratch,
                    ATLAS as int,
                    atlas_words(is_color, *at),
                ),
                ..old(self)@
            }),
    {
        let kind: u32 = if is_color {
            1
        } else {
            0
        };
        let words: [u32; 16] = [
            at.pos.0,
            at.pos.1,
            at.size.0,
            at.size.1,
            at.uv_pos.0,
            at.uv_pos.1,
            at.uv_size.0,
            at.uv_size.1,
            at.color[0],
            at.color[1],
            at.color[2],
            at.color[3],
            kind,
            0,
            0,
            0,
        ];
        assert(words@ =~= atlas_words(is_color, *at));
        self.scratch.push(ATLAS, words.as_slice());
    }
}

/// The content with a block elsewhere: nothing changes where it is there already.
pub open spec fn moved(state: RetainedState, i: int, offset: (u32, u32)) -> RetainedState {
    let at = state.table.blocks[i].offset;
    if bits::float_eq(at.0, offset.0) && bits::float_eq(at.1, offset.1) {
        state
    } else {
        RetainedState {
            table: state.table.with(
                i,
                BlockState { offset, uniform_dirty: true, ..state.table.blocks[i] },
            ),
            damaged: true,
            ..state
        }
    }
}

/// The content with a block shown or hidden: nothing changes where it is so already.
pub open spec fn shown(state: RetainedState, i: int, visible: bool) -> RetainedState {
    if state.table.blocks[i].visible == visible {
        state
    } else {
        RetainedState {
            table: state.table.with(i, BlockState { visible, ..state.table.blocks[i] }),
            damaged: true,
            ..state
        }
    }
}

/// The frame number can go on, and so can the counts that an eviction advances.
pub open spec fn can_begin(state: RendererState) -> bool {
    &&& state.frame < u64::MAX
    &&& state.curves.generation < u64::MAX
    &&& state.curves.layout_generation < u64::MAX
    &&& state.atlas.generation < u64::MAX
}

proof fn lemma_curves_touched_rest(store: StoreState, keys: Seq<GlyphKey>, n: int, frame: u64)
    requires
        0 <= n <= keys.len(),
    ensures
        ({
            let after = curves_touched(store, keys, n, frame);
            after == (StoreState { entries: after.entries, ..store })
        }),
    decreases n,
{
    if n > 0 {
        lemma_curves_touched_rest(store, keys, n - 1, frame);
    }
}

pub(crate) proof fn lemma_curves_in_use_rest(store: StoreState, blocks: Seq<BlockState>, n: int, frame: u64)
    requires
        0 <= n <= blocks.len(),
    ensures
        ({
            let after = curves_in_use(store, blocks, n, frame);
            after == (StoreState { entries: after.entries, ..store })
        }),
    decreases n,
{
    if n > 0 {
        lemma_curves_in_use_rest(store, blocks, n - 1, frame);
        lemma_curves_touched_rest(
            curves_in_use(store, blocks, n - 1, frame),
            blocks[n - 1].curve_keys,
            blocks[n - 1].curve_keys.len() as int,
            frame,
        );
    }
}

proof fn lemma_atlas_touched_rest(state: AtlasState, keys: Seq<AtlasKey>, n: int, frame: u64)
    requires
        0 <= n <= keys.len(),
    ensures
        ({
            let after = atlas_touched(state, keys, n, frame);
            after == (AtlasState { entries: after.entries, ..state })
        }),
    decreases n,
{
    if n > 0 {
        lemma_atlas_touched_rest(state, keys, n - 1, frame);
    }
}

pub(crate) proof fn lemma_atlas_in_use_rest(state: AtlasState, blocks: Seq<BlockState>, n: int, frame: u64)
    requires
        0 <= n <= blocks.len(),
    ensures
        ({
            let after = atlas_in_use(state, blocks, n, frame);
            after == (AtlasState { entries: after.entries, ..state })
        }),
    decreases n,
{
    if n > 0 {
        lemma_atlas_in_use_rest(state, blocks, n - 1, frame);
        lemma_atlas_touched_rest(
            atlas_in_use(state, blocks, n - 1, frame),
            blocks[n - 1].atlas_keys,
            blocks[n - 1].atlas_keys.len() as int,
            frame,
        );
    }
}

impl TextRenderer {
    /// Stamps every glyph that the blocks refer to as used on a frame.
    fn touch_all(&mut self, frame: u64)
        requires
            old(self).wf(),
        ensures
            final(self).wf(),
            ({
                let blocks = old(self)@.retained.table.blocks;
                final(self)@ == (RendererState {
                    curves: curves_in_use(
                        old(self)@.curves,
                        blocks,
                        blocks.len() as int,
                        frame,
                    ),
                    atlas: atlas_in_use(old(self)@.atlas, blocks, blocks.len() as int, frame),
                    ..old(self)@
                })
            }),
    {
        let ghost before = self@;
        let ghost blocks = before.retained.table.blocks;
        let count: usize = self.retained.table().len();
        let mut i: usize = 0;
        while i < count
            invariant
                self.wf(),
                i <= count == blocks.len(),
                blocks == before.retained.table.blocks,
                self@ == (RendererState {
                    curves: curves_in_use(before.curves, blocks, i as int, frame),
                    atlas: atlas_in_use(before.atlas, blocks, i as int, frame),
                    ..before
                }),
            decreases count - i,
        {
            let ghost start = self@;
            let keys: usize = self.retained.table().at(i).curve_keys.len();
            let mut k: usize = 0;
            while k < keys
                invariant
                    self.wf(),
                    i < count == blocks.len(),
                    blocks == before.retained.table.blocks,
                    start.retained == before.retained,
                    k <= keys == blocks[i as int].curve_keys.len(),
                    self@ == (RendererState {
                        curves: curves_touched(
                            start.curves,
                            blocks[i as int].curve_keys,
                            k as int,
                            frame,
                        ),
                        ..start
                    }),
                decreases keys - k,
            {
                let key: GlyphKey = self.retained.table().at(i).curve_keys[k];
                assert(key == blocks[i as int].curve_keys[k as int]);
                self.curves.touch(&key, frame);
                k = k + 1;
            }
            let ghost middle = self@;
            let keys: usize = self.retained.table().at(i).atlas_keys.len();
            let mut k: usize = 0;
            while k < keys
                invariant
                    self.wf(),
                    i < count == blocks.len(),
                    blocks == before.retained.table.blocks,
                    middle.retained == before.retained,
                    k <= keys == blocks[i as int].atlas_keys.len(),
                    self@ == (RendererState {
                        atlas: atlas_touched(
                            middle.atlas,
                            blocks[i as int].atlas_keys,
                            k as int,
                            frame,
                        ),
                        ..middle
                    }),
                decreases keys - k,
            {
                let key: AtlasKey = self.retained.table().at(i).atlas_keys[k];
                assert(key == blocks[i as int].atlas_keys[k as int]);
                self.atlas.touch(&key, frame);
                k = k + 1;
            }
            i = i + 1;
        }
    }

    /// Whether the counters that a frame edge raises can still be raised.
    pub fn may_begin(&self) -> (yes: bool)
        ensures
            yes == can_begin(self@),
    {
        self.frame < u64::MAX && self.curves.generation() < u64::MAX
            && self.curves.layout_generation() < u64::MAX && self.atlas.generation() < u64::MAX
    }

    /// Goes on to the next frame, and leaves every block as it is.
    ///
    /// This is the only point at which the glyph stores evict: no instance drawn on the
    /// frame that ended is used behind it. What blocks refer to is never asked for again,
    /// so it is stamped as used before the stores decide what goes. Where they move or void
    /// what instances hold, the instances are changed with them.
    pub fn begin_frame(&mut self)
        requires
            old(self).wf(),
            can_begin(old(self)@),
        ensures
            final(self).wf(),
            frame_begins(old(self)@, final(self)@),
    {
        let ghost before = self@;
        let ghost blocks = before.retained.table.blocks;
        let frame: u64 = self.frame + 1;
        self.frame = frame;
        self.touch_all(frame);
        let ghost curves = self@.curves;
        let ghost atlas = self@.atlas;
        proof {
            lemma_curves_in_use_rest(before.curves, blocks, blocks.len() as int, frame);
            lemma_atlas_in_use_rest(before.atlas, blocks, blocks.len() as int, frame);
            self.retained.lemma_valid();
        }
        self.curves.begin_frame(frame);
        self.atlas.begin_frame(frame);
        let layout: u64 = self.curves.layout_generation();
        let ghost mut moves: Option<Map<u32, u32>> = None;
        if self.curves_layout != layout {
            self.curves_layout = layout;
            self.retained.relocate(&self.curves);
            proof {
                moves = Some(self.curves@.relocations);
            }
        }
        let ghost middle = self.retained@;
        proof {
            self.retained.lemma_valid();
        }
        let generation: u64 = self.atlas.generation();
        let reset: bool = self.atlas_generation != generation;
        if reset {
            self.atlas_generation = generation;
            self.retained.blank_atlas();
        }
        proof {
            assert(middle.valid());
            assert(retained_begin(before.retained, moves, reset, self.retained@));
            assert(curves_begin(curves, frame, self.curves@));
        }
    }

    /// Starts a frame in immediate mode: goes on to the next frame, and forgets what the
    /// immediate-mode calls queued.
    pub fn begin(&mut self)
        requires
            old(self).wf(),
            can_begin(old(self)@),
        ensures
            final(self).wf(),
            exists|middle: RendererState| #[trigger]
                frame_begins(old(self)@, middle) && final(self)@ == (RendererState {
                    scratch: blank_staged(false),
                    transient_pending: true,
                    ..middle
                }),
    {
        self.begin_frame();
        let ghost middle = self@;
        self.scratch = Scratch::new(false);
        self.transient_pending = true;
        assert(frame_begins(old(self)@, middle));
    }

    /// Whether there is room for what is queued in immediate mode, where anything is, and
    /// for every block's uniform.
    pub fn may_finish(&self) -> (yes: bool)
        requires
            self.wf(),
        ensures
            yes == ((self@.transient_pending ==> self@.retained.has_room(self@.scratch))
                && self@.retained.table.slot_top <= 0x8000_0000),
    {
        (!self.transient_pending || self.has_room()) && self.retained.table().slot_top()
            <= 0x8000_0000
    }

    /// Settles everything that is to be uploaded for the frame, and hands it over: once the
    /// writes are made, nothing has changed since.
    pub fn finish(&mut self, screen_size: (u32, u32)) -> (frame: Frame)
        requires
            old(self).wf(),
            old(self)@.transient_pending ==> old(self)@.retained.has_room(old(self)@.scratch),
            old(self)@.retained.table.slot_top <= 0x8000_0000,
        ensures
            final(self).wf(),
            finishes(old(self)@, screen_size, frame, final(self)@),
    {
        let ghost before = self@;
        proof {
            self.retained.lemma_valid();
        }
        if self.transient_pending {
            self.transient_pending = false;
            self.commit(BlockId::new(self.transient));
        }
        let ghost committed = self@.retained;
        proof {
            assert(committed == after_transient(before)) by {
                let table = before.retained.table;
                if before.transient_pending && table.has_block(before.transient) {
                    let i = choose|i: int| table.is_at(before.transient, i);
                    assert(table.is_at(before.transient, i));
                }
            }
        }
        let globals: Option<(u32, u32)> = if self.globals_dirty || !bits::same(
            self.screen_size.0,
            screen_size.0,
        ) || !bits::same(self.screen_size.1, screen_size.1) {
            self.screen_size = screen_size;
            self.globals_dirty = false;
            Some(screen_size)
        } else {
            None
        };
        let rows: Option<RowUpload> = self.curves.flush();
        let generation: u64 = self.curves.generation();
        let rebind: bool = self.curves_generation != generation;
        self.curves_generation = generation;
        let uniforms: UniformPlan = self.retained.take_uniforms();
        let ghost middle = self.retained@;
        let content: ContentPlan = self.retained.take_uploads();
        self.uploads = UploadStats {
            content_writes: at_most_u32(content.uploads.len()),
            instances: content.instances,
            uniform_writes: at_most_u32(uniforms.uploads.len()),
        };
        let frame = Frame { globals, rows, rebind, uniforms, content };
        proof {
            self.retained.lemma_valid();
            assert(uploads_settled(committed, frame, middle, self.retained@));
        }
        frame
    }

    /// The draw calls of a frame: every visible block in the order they were created, and
    /// of each block its layers in order.
    pub fn draws(&self) -> (draws: Vec<Draw>)
        requires
            self.wf(),
        ensures
            draws@ == retained::draws_of(
                self@.retained,
                self@.retained.table.blocks.len() as int,
            ),
    {
        self.retained.draws()
    }
}

fn at_most_u32(n: usize) -> (count: u32)
    ensures
        count == retained::counted(n as int),
{
    if n <= u32::MAX as usize {
        n as u32
    } else {
        u32::MAX
    }
}

/// The content once the immediate-mode calls are in their block.
pub open spec fn after_transient(state: RendererState) -> RetainedState {
    let table = state.retained.table;
    if state.transient_pending && table.has_block(state.transient) {
        state.retained.committed(
            choose|i: int| table.is_at(state.transient, i),
            state.scratch,
        )
    } else {
        state.retained
    }
}

/// The uniforms that changed are handed over, then the instances that changed.
pub open spec fn uploads_settled(
    before: RetainedState,
    frame: Frame,
    middle: RetainedState,
    after: RetainedState,
) -> bool {
    let grows = before.table.slot_top > before.uniform_capacity;
    let blocks = before.table.blocks;
    &&& frame.uniforms.uploads@ == retained::uniform_uploads(blocks, grows, blocks.len() as int)
    &&& frame.uniforms.grown is Some <==> grows
    &&& frame.uniforms.grown matches Some(room) ==> arena::is_power_of_two(room as int)
        && before.table.slot_top <= room < 2 * before.table.slot_top
    &&& after.uniform_capacity == match frame.uniforms.grown {
        Some(room) => room as int,
        None => before.uniform_capacity,
    }
    &&& middle.layers == before.layers
    &&& middle.table == TableState {
        blocks: Seq::new(
            blocks.len(),
            |i: int| BlockState { uniform_dirty: false, ..blocks[i] },
        ),
        ..before.table
    }
    &&& frame.content.uploads@ == retained::content_uploads(middle)
    &&& frame.content.instances == retained::counted(
        retained::instances_in(frame.content.uploads@),
    )
    &&& after.table == TableState {
        blocks: Seq::new(
            blocks.len(),
            |i: int| BlockState { content_dirty: false, ..middle.table.blocks[i] },
        ),
        ..before.table
    }
    &&& after.layers.len() == LAYERS
    &&& forall|l: int|
        0 <= l < LAYERS ==> retained::settled(middle.layers[l], #[trigger] after.layers[l])
    &&& frame.content.grown@ == retained::grown_layers(middle.layers, after.layers, LAYERS as int)
    &&& !after.damaged
}

/// What finishing a frame does.
pub open spec fn finishes(
    before: RendererState,
    screen_size: (u32, u32),
    frame: Frame,
    after: RendererState,
) -> bool {
    let resized = before.globals_dirty || !bits::float_eq(before.screen_size.0, screen_size.0)
        || !bits::float_eq(before.screen_size.1, screen_size.1);
    &&& frame.globals == if resized {
        Some(screen_size)
    } else {
        None
    }
    &&& frame.rows is Some <==> before.curves.uploaded < before.curves.data.len()
    &&& frame.rows matches Some(rows) ==> curves::are_due(before.curves, rows)
    &&& frame.rebind == (before.curves_generation != before.curves.generation)
    &&& exists|middle: RetainedState| #[trigger]
        uploads_settled(after_transient(before), frame, middle, after.retained)
    &&& after == RendererState {
        retained: after.retained,
        curves: StoreState {
            uploaded: if before.curves.uploaded < before.curves.data.len() {
                before.curves.data.len() as int
            } else {
                before.curves.uploaded
            },
            ..before.curves
        },
        curves_generation: before.curves.generation,
        transient_pending: false,
        screen_size: if resized {
            screen_size
        } else {
            before.screen_size
        },
        globals_dirty: false,
        uploads: UploadStats {
            content_writes: retained::counted(frame.content.uploads@.len() as int),
            instances: retained::counted(retained::instances_in(frame.content.uploads@)),
            uniform_writes: retained::counted(frame.uniforms.uploads@.len() as int),
        },
        ..before
    }
}

proof fn lemma_atlas_touched(
    state: AtlasState,
    keys: Seq<AtlasKey>,
    n: int,
    frame: u64,
    key: u128,
)
    requires
        0 <= n <= keys.len(),
        state.entries.contains_key(key),
    ensures
        atlas_touched(state, keys, n, frame).entries.contains_key(key),
        atlas_touched(state, keys, n, frame).entries[key].slot == state.entries[key].slot,
        state.entries[key].last_used == frame ==> atlas_touched(
            state,
            keys,
            n,
            frame,
        ).entries[key].last_used == frame,
        forall|i: int|
            0 <= i < n && (#[trigger] keys[i]).number() == key ==> atlas_touched(
                state,
                keys,
                n,
                frame,
            ).entries[key].last_used == frame,
    decreases n,
{
    if n > 0 {
        lemma_atlas_touched(state, keys, n - 1, frame, key);
        lemma_atlas_number(keys[n - 1]);
    }
}

proof fn lemma_atlas_in_use_keeps(
    state: AtlasState,
    blocks: Seq<BlockState>,
    n: int,
    frame: u64,
    key: u128,
)
    requires
        0 <= n <= blocks.len(),
        state.entries.contains_key(key),
    ensures
        atlas_in_use(state, blocks, n, frame).entries.contains_key(key),
        atlas_in_use(state, blocks, n, frame).entries[key].slot == state.entries[key].slot,
    decreases n,
{
    if n > 0 {
        lemma_atlas_in_use_keeps(state, blocks, n - 1, frame, key);
        lemma_atlas_touched(
            atlas_in_use(state, blocks, n - 1, frame),
            blocks[n - 1].atlas_keys,
            blocks[n - 1].atlas_keys.len() as int,
            frame,
            key,
        );
    }
}

/// Retained places are in use: at the start of a frame, every rasterized glyph that a
/// block's instances refer to counts as drawn on that frame, so that no eviction on it
/// takes its place away.
pub proof fn lemma_retained_places_in_use(
    state: AtlasState,
    blocks: Seq<BlockState>,
    n: int,
    frame: u64,
    i: int,
    k: int,
)
    requires
        0 <= i < n <= blocks.len(),
        0 <= k < blocks[i].atlas_keys.len(),
        state.entries.contains_key(blocks[i].atlas_keys[k].number() as u128),
    ensures
        ({
            let key = blocks[i].atlas_keys[k].number() as u128;
            let after = AtlasState { frame, ..atlas_in_use(state, blocks, n, frame) };
            &&& after.is_live(key)
            &&& after.entries[key].slot == state.entries[key].slot
        }),
    decreases n,
{
    let key = blocks[i].atlas_keys[k].number() as u128;
    let before = atlas_in_use(state, blocks, n - 1, frame);
    lemma_atlas_number(blocks[i].atlas_keys[k]);
    if i < n - 1 {
        lemma_retained_places_in_use(state, blocks, n - 1, frame, i, k);
        let sooner = AtlasState { frame, ..atlas_in_use(state, blocks, n - 1, frame) };
        assert(sooner.is_live(key));
        lemma_atlas_last_used(state, blocks, n - 1, frame, i, k);
    } else {
        lemma_atlas_in_use_keeps(state, blocks, n - 1, frame, key);
    }
    lemma_atlas_touched(
        before,
        blocks[n - 1].atlas_keys,
        blocks[n - 1].atlas_keys.len() as int,
        frame,
        key,
    );
}

proof fn lemma_atlas_last_used(
    state: AtlasState,
    blocks: Seq<BlockState>,
    n: int,
    frame: u64,
    i: int,
    k: int,
)
    requires
        0 <= i < n <= blocks.len(),
        0 <= k < blocks[i].atlas_keys.len(),
        state.entries.contains_key(blocks[i].atlas_keys[k].number() as u128),
    ensures
        ({
            let key = blocks[i].atlas_keys[k].number() as u128;
            let after = atlas_in_use(state, blocks, n, frame);
            after.entries.contains_key(key) && after.entries[key].last_used == frame
        }),
    decreases n,
{
    let key = blocks[i].atlas_keys[k].number() as u128;
    lemma_atlas_number(blocks[i].atlas_keys[k]);
    if i < n - 1 {
        lemma_atlas_last_used(state, blocks, n - 1, frame, i, k);
    } else {
        lemma_atlas_in_use_keeps(state, blocks, n - 1, frame, key);
    }
    lemma_atlas_touched(
        atlas_in_use(state, blocks, n - 1, frame),
        blocks[n - 1].atlas_keys,
        blocks[n - 1].atlas_keys.len() as int,
        frame,
        key,
    );
}

/// A list of glyphs takes a key over once: it holds that one then and all it held, in the
/// same order, and nothing twice.
pub proof fn lemma_key_listed_once(keys: Seq<GlyphKey>, key: GlyphKey, i: int)
    requires
        keys.no_duplicates(),
        0 <= i < keys.len(),
    ensures
        with_curve_key(keys, key).contains(key),
        with_curve_key(keys, key).no_duplicates(),
        with_curve_key(keys, key)[i] == keys[i],
        with_curve_key(keys, key).len() == keys.len() + (if keys.contains(key) {
            0int
        } else {
            1int
        }),
{
    if !keys.contains(key) {
        let after = keys.push(key);
        assert(after[keys.len() as int] == key);
        assert forall|a: int, b: int| 0 <= a < b < after.len() implies after[a] != after[b] by {
            if b == keys.len() {
                assert(keys.contains(keys[a]));
            }
        }
    }
}

/// The same of a list of rasterized glyphs.
pub proof fn lemma_place_listed_once(keys: Seq<AtlasKey>, key: AtlasKey, i: int)
    requires
        keys.no_duplicates(),
        0 <= i < keys.len(),
    ensures
        with_atlas_key(keys, key).contains(key),
        with_atlas_key(keys, key).no_duplicates(),
        with_atlas_key(keys, key)[i] == keys[i],
        with_atlas_key(keys, key).len() == keys.len() + (if keys.contains(key) {
            0int
        } else {
            1int
        }),
{
    if !keys.contains(key) {
        let after = keys.push(key);
        assert(after[keys.len() as int] == key);
        assert forall|a: int, b: int| 0 <= a < b < after.len() implies after[a] != after[b] by {
            if b == keys.len() {
                assert(keys.contains(keys[a]));
            }
        }
    }
}

/// Content starts with nothing on any layer, no glyphs, and none missing.
pub proof fn lemma_blank_staged(collect_keys: bool, l: int)
    requires
        0 <= l < LAYERS,
    ensures
        blank_staged(collect_keys).layers.len() == LAYERS,
        blank_staged(collect_keys).layers[l].len() == 0,
        blank_staged(collect_keys).curve_keys.len() == 0,
        blank_staged(collect_keys).atlas_keys.len() == 0,
        blank_staged(collect_keys).collect_keys == collect_keys,
        !blank_staged(collect_keys).stale,
{
}

proof fn lemma_touched_only(store: StoreState, keys: Seq<GlyphKey>, n: int, frame: u64, key: u128)
    requires
        0 <= n <= keys.len(),
        store.entries.contains_key(key),
        forall|i: int| 0 <= i < n ==> (#[trigger] keys[i]).number() as u128 != key,
    ensures
        curves_touched(store, keys, n, frame).entries.contains_key(key),
        curves_touched(store, keys, n, frame).entries[key] == store.entries[key],
    decreases n,
{
    if n > 0 {
        lemma_touched_only(store, keys, n - 1, frame, key);
        assert(keys[n - 1].number() as u128 != key);
    }
}

/// A stored glyph that no block refers to is not stamped: it ages.
pub proof fn lemma_unused_glyphs_age(
    store: StoreState,
    blocks: Seq<BlockState>,
    n: int,
    frame: u64,
    key: u128,
)
    requires
        0 <= n <= blocks.len(),
        store.entries.contains_key(key),
        forall|i: int, k: int|
            0 <= i < n && 0 <= k < blocks[i].curve_keys.len()
                ==> (#[trigger] blocks[i].curve_keys[k]).number() as u128 != key,
    ensures
        curves_in_use(store, blocks, n, frame).entries.contains_key(key),
        curves_in_use(store, blocks, n, frame).entries[key] == store.entries[key],
    decreases n,
{
    if n > 0 {
        lemma_unused_glyphs_age(store, blocks, n - 1, frame, key);
        let keys = blocks[n - 1].curve_keys;
        assert forall|k: int| 0 <= k < keys.len() implies (#[trigger] keys[k]).number() as u128
            != key by {
            assert(blocks[n - 1].curve_keys[k].number() as u128 != key);
        }
        lemma_touched_only(
            curves_in_use(store, blocks, n - 1, frame),
            keys,
            keys.len() as int,
            frame,
            key,
        );
    }
}

proof fn lemma_atlas_touched_only(
    state: AtlasState,
    keys: Seq<AtlasKey>,
    n: int,
    frame: u64,
    key: u128,
)
    requires
        0 <= n <= keys.len(),
        state.entries.contains_key(key),
        forall|i: int| 0 <= i < n ==> (#[trigger] keys[i]).number() as u128 != key,
    ensures
        atlas_touched(state, keys, n, frame).entries.contains_key(key),
        atlas_touched(state, keys, n, frame).entries[key] == state.entries[key],
    decreases n,
{
    if n > 0 {
        lemma_atlas_touched_only(state, keys, n - 1, frame, key);
        assert(keys[n - 1].number() as u128 != key);
    }
}

/// A rasterized glyph that no block refers to is not stamped either.
pub proof fn lemma_unused_places_age(
    state: AtlasState,
    blocks: Seq<BlockState>,
    n: int,
    frame: u64,
    key: u128,
)
    requires
        0 <= n <= blocks.len(),
        state.entries.contains_key(key),
        forall|i: int, k: int|
            0 <= i < n && 0 <= k < blocks[i].atlas_keys.len()
                ==> (#[trigger] blocks[i].atlas_keys[k]).number() as u128 != key,
    ensures
        atlas_in_use(state, blocks, n, frame).entries.contains_key(key),
        atlas_in_use(state, blocks, n, frame).entries[key] == state.entries[key],
    decreases n,
{
    if n > 0 {
        lemma_unused_places_age(state, blocks, n - 1, frame, key);
        let keys = blocks[n - 1].atlas_keys;
        assert forall|k: int| 0 <= k < keys.len() implies (#[trigger] keys[k]).number() as u128
            != key by {
            assert(blocks[n - 1].atlas_keys[k].number() as u128 != key);
        }
        lemma_atlas_touched_only(
            atlas_in_use(state, blocks, n - 1, frame),
            keys,
            keys.len() as int,
            frame,
            key,
        );
    }
}

/// A block that is moved is at its new place, with its uniform to be uploaded and nothing
/// else; one that is there already stays as it is, and so does every other block, and all
/// instances.
pub proof fn lemma_moved(state: RetainedState, i: int, offset: (u32, u32), k: int)
    requires
        0 <= i < state.table.blocks.len(),
        0 <= k < state.table.blocks.len(),
        !bits::is_nan(offset.0),
        !bits::is_nan(offset.1),
    ensures
        ({
            let after = moved(state, i, offset);
            let was = state.table.blocks[i];
            let now = after.table.blocks[i];
            let there = bits::float_eq(was.offset.0, offset.0) && bits::float_eq(
                was.offset.1,
                offset.1,
            );
            &&& bits::float_eq(now.offset.0, offset.0) && bits::float_eq(now.offset.1, offset.1)
            &&& there ==> after == state
            &&& !there ==> now.uniform_dirty && after.damaged && now.offset == offset
            &&& now.content_dirty == was.content_dirty && now.visible == was.visible && now.id
                == was.id && now.slot == was.slot && now.stale == was.stale
            &&& now.curve_keys == was.curve_keys && now.atlas_keys == was.atlas_keys
            &&& k != i ==> after.table.blocks[k] == state.table.blocks[k]
            &&& after.layers == state.layers
        }),
{
}

/// A block that is shown is visible and one that is hidden is not; nothing else of it
/// changes, and nothing of any other block.
pub proof fn lemma_shown(state: RetainedState, i: int, visible: bool, k: int)
    requires
        0 <= i < state.table.blocks.len(),
        0 <= k < state.table.blocks.len(),
    ensures
        ({
            let after = shown(state, i, visible);
            let was = state.table.blocks[i];
            let now = after.table.blocks[i];
            &&& now.visible == visible
            &&& was.visible == visible ==> after == state
            &&& was.visible != visible ==> after.damaged
            &&& now.offset == was.offset && now.uniform_dirty == was.uniform_dirty
                && now.content_dirty == was.content_dirty && now.id == was.id && now.slot
                == was.slot && now.stale == was.stale
            &&& now.curve_keys == was.curve_keys && now.atlas_keys == was.atlas_keys
            &&& k != i ==> after.table.blocks[k] == state.table.blocks[k]
            &&& after.layers == state.layers
        }),
{
}

/// What the immediate-mode calls drew is put into their own block, in place of what was
/// there; where they did not draw, nothing changes.
pub proof fn lemma_transient_content(state: RendererState, i: int)
    requires
        state.retained.valid(),
        state.retained.table.is_at(state.transient, i),
    ensures
        state.transient_pending ==> after_transient(state) == state.retained.committed(
            i,
            state.scratch,
        ),
        !state.transient_pending ==> after_transient(state) == state.retained,
{
    let table = state.retained.table;
    let j = choose|j: int| table.is_at(state.transient, j);
    assert(table.has_block(state.transient));
    blocks::lemma_one_block(table, state.transient, i, j);
}

/// Finishing a frame hands over the size of the screen exactly where it changed or was not
/// handed over yet, the rows of curves where there are new ones, and a new binding exactly
/// where the texture of curves was replaced; and remembers all of it.
#[verifier::spinoff_prover]
pub proof fn lemma_frame_handed_over(
    before: RendererState,
    screen_size: (u32, u32),
    frame: Frame,
    after: RendererState,
)
    requires
        finishes(before, screen_size, frame, after),
        !bits::is_nan(screen_size.0),
        !bits::is_nan(screen_size.1),
        0 <= before.curves.uploaded <= before.curves.data.len(),
    ensures
        before.globals_dirty || !(bits::float_eq(before.screen_size.0, screen_size.0)
            && bits::float_eq(before.screen_size.1, screen_size.1)) <==> frame.globals is Some,
        frame.globals matches Some(size) ==> size == screen_size,
        bits::float_eq(after.screen_size.0, screen_size.0) && bits::float_eq(
            after.screen_size.1,
            screen_size.1,
        ),
        frame.rows is Some <==> before.curves.uploaded < before.curves.data.len(),
        after.curves.uploaded == after.curves.data.len(),
        after.curves.data == before.curves.data,
        frame.rebind <==> before.curves_generation != before.curves.generation,
        after.curves_generation == after.curves.generation,
        !after.transient_pending,
        !after.globals_dirty,
        after.frame == before.frame,
        after.atlas == before.atlas,
{
}

/// Starting a frame goes on to the next frame number, for the curves and the atlas too, and
/// takes over which packing of them the instances are built for.
pub proof fn lemma_frame_goes_on(before: RendererState, after: RendererState)
    requires
        before.frame < u64::MAX,
        frame_begins(before, after),
    ensures
        after.frame == before.frame + 1,
        after.curves.frame == after.frame,
        after.atlas.frame == after.frame,
        after.curves_layout == after.curves.layout_generation,
        after.atlas_generation == after.atlas.generation,
        !after.curves.needs_compact,
        !after.atlas.needs_reset,
        after.transient == before.transient,
        after.transient_pending == before.transient_pending,
        after.scratch == before.scratch,
        after.screen_size == before.screen_size,
        after.globals_dirty == before.globals_dirty,
        after.curves_generation == before.curves_generation,
{
}

/// Where curves were moved at the start of a frame, every instance follows its glyph: it
/// points at the glyph's new place and keeps its curves, or, where the glyph was evicted,
/// has none from then on, and its block is stale.
#[verifier::spinoff_prover]
pub proof fn lemma_instances_follow_glyphs(
    before: RendererState,
    after: RendererState,
    l: int,
    i: int,
    k: int,
)
    requires
        before.retained.valid(),
        frame_begins(before, after),
        before.curves_layout != after.curves.layout_generation,
        l == retained::VECTOR || l == retained::BLEND,
        0 <= i < before.retained.table.blocks.len(),
        0 <= k < before.retained.layers[l].spans[i].len,
    ensures
        ({
            let moves = after.curves.relocations;
            let was = before.retained.content(l, i);
            let now = after.retained.content(l, i);
            let first = was[retained::vector_word(k, retained::FIRST_WORD as int)];
            let count = retained::vector_word(k, retained::COUNT_WORD as int);
            &&& moves.contains_key(first) ==> now[retained::vector_word(
                k,
                retained::FIRST_WORD as int,
            )] == moves[first] && now[count] == was[count]
            &&& !moves.contains_key(first) ==> now[count] == 0
                && after.retained.table.blocks[i].stale
        }),
{
    let moves = after.curves.relocations;
    let reset = before.atlas_generation != after.atlas.generation;
    let middle = choose|middle: RetainedState|
        {
            &&& #[trigger] middle.valid()
            &&& retained::relocates(before.retained, moves, middle)
            &&& if reset {
                retained::blanks(middle, after.retained)
            } else {
                after.retained == middle
            }
        };
    let first = before.retained.content(l, i)[retained::vector_word(
        k,
        retained::FIRST_WORD as int,
    )];
    assert(after.retained.content(l, i) == middle.content(l, i));
    assert(middle.table.blocks[i].stale ==> after.retained.table.blocks[i].stale);
    if moves.contains_key(first) {
        retained::lemma_kept_glyph_is_followed(before.retained, moves, middle, l, i, k);
    } else {
        retained::lemma_lost_glyph_draws_nothing(before.retained, moves, middle, l, i, k);
    }
}

proof fn lemma_atlas_content_len(state: RetainedState, i: int)
    requires
        state.valid(),
        0 <= i < state.table.blocks.len(),
    ensures
        state.content(ATLAS as int, i).len() == 16 * state.layers[ATLAS as int].spans[i].len,
{
    let layer = state.layers[ATLAS as int];
    assert(layer.valid() && layer.arena.stride == 16);
    let span = layer.spans[i];
    assert(layer.arena.holds(span));
    let (start, len, stride, top) = (
        span.start as int,
        span.len as int,
        layer.arena.stride,
        layer.arena.top,
    );
    assert((start + len) * stride <= top * stride) by (nonlinear_arith)
        requires
            start + len <= top,
            0 <= stride,
    ;
    assert((start + len) * stride - start * stride == 16 * len && 0 <= start * stride)
        by (nonlinear_arith)
        requires
            stride == 16,
            0 <= start,
    ;
    assert(layer.arena.words.len() == top * stride);
}

/// Where the atlas was reset at the start of a frame, every instance out of it is nothing
/// wide and nothing high, and its block is stale; and where neither curves were moved nor
/// the atlas was reset, no instance changes at all.
#[verifier::spinoff_prover]
pub proof fn lemma_reset_collapses_instances(
    before: RendererState,
    after: RendererState,
    i: int,
    k: int,
)
    requires
        before.retained.valid(),
        frame_begins(before, after),
        0 <= i < before.retained.table.blocks.len(),
    ensures
        before.atlas_generation != after.atlas.generation && 0 <= k
            < before.retained.layers[ATLAS as int].spans[i].len ==> {
            let now = after.retained.content(ATLAS as int, i);
            &&& now[16 * k + 2] == 0
            &&& now[16 * k + 3] == 0
            &&& after.retained.table.blocks[i].stale
        },
        before.atlas_generation == after.atlas.generation && before.curves_layout
            == after.curves.layout_generation ==> after.retained == before.retained,
{
    if before.atlas_generation != after.atlas.generation && 0 <= k
        < before.retained.layers[ATLAS as int].spans[i].len {
        let moves = if before.curves_layout != after.curves.layout_generation {
            Some(after.curves.relocations)
        } else {
            None
        };
        let middle = choose|middle: RetainedState|
            {
                &&& #[trigger] middle.valid()
                &&& match moves {
                    Some(map) => retained::relocates(before.retained, map, middle),
                    None => middle == before.retained,
                }
                &&& retained::blanks(middle, after.retained)
            };
        assert(middle.layers[ATLAS as int].spans == before.retained.layers[ATLAS as int].spans) by {
            if moves is Some {
                assert(retained::same_shape(
                    before.retained.layers[ATLAS as int],
                    middle.layers[ATLAS as int],
                ));
            }
        }
        let words = middle.content(ATLAS as int, i);
        lemma_atlas_content_len(middle, i);
        retained::lemma_collapsed(words, k, 2);
        retained::lemma_collapsed(words, k, 3);
    }
}

} // verus!
