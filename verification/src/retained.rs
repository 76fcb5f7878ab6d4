//! Retained content: the blocks, and their instances on every draw layer.
//!
//! A block owns a span of each layer's arena. Setting its content touches only its own
//! instances, moving it touches none, and what changed since the last upload is known per
//! block.
use crate::arena;
use crate::arena::{ArenaState, Span};
use crate::atlas::AtlasKey;
use crate::blocks;
use crate::blocks::{BlockState, BlockTable, TableState};
use crate::curves::{CurveStore, GlyphKey};
use crate::layers;
use crate::layers::{Layer, LayerState};
use vstd::prelude::*;

verus! {

/// The draw layers of a block, in the order they are drawn: rectangles under the text.
pub const UNDER: usize = 0;

/// Rounded backgrounds.
pub const CHIPS: usize = 1;

/// Glyphs of one master, drawn from their curves.
pub const VECTOR: usize = 2;

/// Glyphs of two masters.
pub const BLEND: usize = 3;

/// Glyphs out of the atlas.
pub const ATLAS: usize = 4;

/// Underlines, strikethroughs and squiggles, over the glyphs they pass through.
pub const LINES: usize = 5;

/// Rectangles over the text.
pub const OVER: usize = 6;

/// The number of layers.
pub const LAYERS: usize = 7;

/// The words of an instance of a rectangle: position, size, color.
pub const RECT_WORDS: usize = 8;

/// The words of an instance of a decoration: position, size, color, kind, corner radius.
pub const DECORATION_WORDS: usize = 12;

/// The words of an instance of a glyph drawn from its curves.
pub const VECTOR_WORDS: usize = 20;

/// The words of an instance of a glyph drawn from the atlas.
pub const ATLAS_WORDS: usize = 16;

/// Where every instance holds its left edge.
pub const X_WORD: usize = 0;

/// Where every instance holds its top edge.
pub const Y_WORD: usize = 1;

/// Where every instance holds its width.
pub const WIDTH_WORD: usize = 2;

/// Where every instance holds its height.
pub const HEIGHT_WORD: usize = 3;

/// Where an instance of a rectangle or a decoration holds the first of its color channels.
pub const RECT_COLOR_WORD: usize = 4;

/// Where an instance of a decoration holds its kind.
pub const KIND_WORD: usize = 8;

/// Where an instance of a decoration holds its corner radius.
pub const RADIUS_WORD: usize = 9;

/// Where an instance of a glyph holds the corner of its source rectangle: in em units, or in
/// the atlas.
pub const SOURCE_WORD: usize = 4;

/// Where an instance of a glyph holds the size of its source rectangle.
pub const SOURCE_SIZE_WORD: usize = 6;

/// Where an instance of a glyph holds the first of its color channels.
pub const GLYPH_COLOR_WORD: usize = 8;

/// Where an instance out of the atlas says whether its pixels have colors of their own.
pub const IS_COLOR_WORD: usize = 12;

/// Where an instance of curves holds the scale from its quad to bands.
pub const BAND_SCALE_WORD: usize = 14;

/// Where it holds the bias from its quad to bands.
pub const BAND_BIAS_WORD: usize = 16;

/// Where it holds the position between its two masters.
pub const WEIGHT_WORD: usize = 18;

/// Where an instance of curves holds the base texel of its glyph.
pub const FIRST_WORD: usize = 12;

/// Where it holds the curve count.
pub const COUNT_WORD: usize = 13;

/// Where it holds the base texel of its second master, 0 without one.
pub const B_FIRST_WORD: usize = 19;

/// Where an instance out of the atlas holds its size.
pub const SIZE_WORD: usize = 2;

/// How many uniforms the uniform buffer holds at first.
pub const UNIFORM_CAPACITY: u32 = 8;

/// The words of an instance on a layer.
pub open spec fn stride_of(layer: int) -> int {
    if layer == UNDER || layer == OVER {
        RECT_WORDS as int
    } else if layer == ATLAS {
        ATLAS_WORDS as int
    } else if layer == VECTOR || layer == BLEND {
        VECTOR_WORDS as int
    } else {
        DECORATION_WORDS as int
    }
}

/// Content for a block: the words of its instances on every layer, and the glyphs that
/// they refer to.
pub struct Staged {
    pub layers: Vec<Vec<u32>>,
    pub curve_keys: Vec<GlyphKey>,
    pub atlas_keys: Vec<AtlasKey>,
    /// Whether the glyphs are to be remembered with the block.
    pub collect_keys: bool,
    /// Whether a glyph could not be drawn.
    pub stale: bool,
}

/// What a [`Staged`] holds.
pub ghost struct StagedState {
    pub layers: Seq<Seq<u32>>,
    pub curve_keys: Seq<GlyphKey>,
    pub atlas_keys: Seq<AtlasKey>,
    pub collect_keys: bool,
    pub stale: bool,
}

impl View for Staged {
    type V = StagedState;

    open spec fn view(&self) -> StagedState {
        StagedState {
            layers: Seq::new(self.layers@.len(), |l: int| self.layers@[l]@),
            curve_keys: self.curve_keys@,
            atlas_keys: self.atlas_keys@,
            collect_keys: self.collect_keys,
            stale: self.stale,
        }
    }
}

impl StagedState {
    /// Whole instances on every layer.
    pub open spec fn valid(self) -> bool {
        &&& self.layers.len() == LAYERS
        &&& forall|l: int|
            0 <= l < LAYERS ==> (#[trigger] self.layers[l]).len() % (stride_of(l) as nat) == 0
    }

    /// No instances at all.
    pub open spec fn is_empty(self) -> bool {
        forall|l: int| 0 <= l < LAYERS ==> (#[trigger] self.layers[l]).len() == 0
    }
}

/// What a [`Retained`] holds.
#[verifier::ext_equal]
pub ghost struct RetainedState {
    pub table: TableState,
    pub layers: Seq<LayerState>,
    /// Something changed since the last upload.
    pub damaged: bool,
    /// How many uniforms the uniform buffer holds.
    pub uniform_capacity: int,
}

impl RetainedState {
    /// Every layer has a span for every block.
    pub open spec fn valid(self) -> bool {
        &&& self.table.valid()
        &&& self.layers.len() == LAYERS
        &&& forall|l: int|
            0 <= l < LAYERS ==> {
                &&& (#[trigger] self.layers[l]).valid()
                &&& self.layers[l].spans.len() == self.table.blocks.len()
                &&& self.layers[l].arena.stride == stride_of(l)
            }
    }

    /// A block has no instances.
    pub open spec fn is_blank(self, i: int) -> bool {
        forall|l: int| 0 <= l < LAYERS ==> (#[trigger] self.layers[l]).spans[i].len == 0
    }

    /// The state with one more block.
    pub open spec fn created(self) -> RetainedState {
        RetainedState {
            table: self.table.created(),
            layers: Seq::new(LAYERS as nat, |l: int| self.layers[l].with_block()),
            damaged: true,
            ..self
        }
    }

    /// The state without a block. Layers that are mostly free afterwards are packed.
    pub open spec fn dropped(self, i: int) -> RetainedState {
        RetainedState {
            table: self.table.dropped(i),
            layers: Seq::new(LAYERS as nat, |l: int| self.layers[l].without_block(i).tidied()),
            damaged: true,
            ..self
        }
    }

    /// There is room for the content on every layer.
    pub open spec fn has_room(self, staged: StagedState) -> bool {
        forall|l: int|
            0 <= l < LAYERS ==> (#[trigger] self.layers[l]).has_room(
                staged.layers[l].len() as int / stride_of(l),
            )
    }

    /// The state with other content in a block. Where there was none and there is none,
    /// nothing is to be uploaded or drawn for it: all that is kept is whether a glyph is
    /// missing.
    pub open spec fn committed(self, i: int, staged: StagedState) -> RetainedState {
        let block = self.table.blocks[i];
        if self.is_blank(i) && staged.is_empty() {
            RetainedState {
                table: self.table.with(i, BlockState { stale: staged.stale, ..block }),
                ..self
            }
        } else {
            RetainedState {
                table: self.table.with(
                    i,
                    BlockState {
                        content_dirty: true,
                        stale: staged.stale,
                        curve_keys: if staged.collect_keys {
                            staged.curve_keys
                        } else {
                            block.curve_keys
                        },
                        atlas_keys: if staged.collect_keys {
                            staged.atlas_keys
                        } else {
                            block.atlas_keys
                        },
                        ..block
                    },
                ),
                layers: Seq::new(
                    LAYERS as nat,
                    |l: int| self.layers[l].with_content(i, staged.layers[l]).tidied(),
                ),
                damaged: true,
                ..self
            }
        }
    }

    /// The instances of a block on a layer.
    pub open spec fn content(self, l: int, i: int) -> Seq<u32> {
        self.layers[l].content(i)
    }
}

/// A block is stale exactly where a glyph could not be drawn right when its content was set,
/// even where nothing else is in it, and other blocks stay as they were.
pub proof fn lemma_committed_stale(state: RetainedState, i: int, k: int, staged: StagedState)
    requires
        0 <= i < state.table.blocks.len(),
        0 <= k < state.table.blocks.len(),
    ensures
        state.committed(i, staged).table.blocks[i].stale == staged.stale,
        k != i ==> state.committed(i, staged).table.blocks[k] == state.table.blocks[k],
        state.is_blank(i) && staged.is_empty() ==> state.committed(i, staged).damaged
            == state.damaged,
{
}

/// No blocks, and layers without instances.
pub open spec fn blank() -> RetainedState {
    RetainedState {
        table: TableState {
            blocks: Seq::empty(),
            next_id: 0,
            free_slots: Seq::empty(),
            slot_top: 0,
        },
        layers: Seq::new(LAYERS as nat, |l: int| layers::blank(stride_of(l))),
        damaged: false,
        uniform_capacity: UNIFORM_CAPACITY as int,
    }
}

/// The retained blocks, with their instances.
pub struct Retained {
    table: BlockTable,
    layers: Vec<Layer>,
    damaged: bool,
    uniform_capacity: u32,
}

impl View for Retained {
    type V = RetainedState;

    closed spec fn view(&self) -> RetainedState {
        RetainedState {
            table: self.table@,
            layers: Seq::new(self.layers@.len(), |l: int| self.layers@[l]@),
            damaged: self.damaged,
            uniform_capacity: self.uniform_capacity as int,
        }
    }
}

impl Retained {
    /// The state is valid, and so is every layer.
    pub closed spec fn wf(&self) -> bool {
        &&& self@.valid()
        &&& self.table.wf()
        &&& forall|l: int| 0 <= l < self.layers@.len() ==> (#[trigger] self.layers@[l]).wf()
    }

    /// The state is valid.
    pub proof fn lemma_valid(&self)
        requires
            self.wf(),
        ensures
            self@.valid(),
    {
    }

    /// No blocks.
    pub fn new() -> (retained: Retained)
        ensures
            retained.wf(),
            retained@ == blank(),
    {
        let mut layers: Vec<Layer> = Vec::new();
        layers.push(Layer::new(4 * RECT_WORDS));
        layers.push(Layer::new(4 * DECORATION_WORDS));
        layers.push(Layer::new(4 * VECTOR_WORDS));
        layers.push(Layer::new(4 * VECTOR_WORDS));
        layers.push(Layer::new(4 * ATLAS_WORDS));
        layers.push(Layer::new(4 * DECORATION_WORDS));
        layers.push(Layer::new(4 * RECT_WORDS));
        proof {
            layers@[0].lemma_valid();
            layers@[1].lemma_valid();
            layers@[2].lemma_valid();
            layers@[3].lemma_valid();
            layers@[4].lemma_valid();
            layers@[5].lemma_valid();
            layers@[6].lemma_valid();
        }
        let retained = Retained {
            table: BlockTable::new(),
            layers,
            damaged: false,
            uniform_capacity: UNIFORM_CAPACITY,
        };
        assert forall|l: int| 0 <= l < LAYERS implies {
            &&& (#[trigger] retained@.layers[l]).valid()
            &&& retained@.layers[l].spans.len() == retained@.table.blocks.len()
            &&& retained@.layers[l].arena.stride == stride_of(l)
            &&& retained@.layers[l] == layers::blank(stride_of(l))
        } by {
            assert(l == 0 || l == 1 || l == 2 || l == 3 || l == 4 || l == 5 || l == 6);
        }
        assert(retained@.layers =~= blank().layers);
        retained
    }

    /// The blocks.
    pub fn table(&self) -> (table: &BlockTable)
        ensures
            table@ == self@.table,
            self.wf() ==> table.wf(),
    {
        &self.table
    }

    /// A layer.
    pub fn layer(&self, l: usize) -> (layer: &Layer)
        requires
            l < self@.layers.len(),
        ensures
            layer@ == self@.layers[l as int],
            self.wf() ==> layer.wf(),
    {
        &self.layers[l]
    }

    /// Whether something changed since the last upload.
    pub fn damaged(&self) -> (yes: bool)
        ensures
            yes == self@.damaged,
    {
        self.damaged
    }

    /// Creates an empty block, drawn over all others.
    pub fn create(&mut self) -> (id: u32)
        requires
            old(self).wf(),
            old(self)@.table.next_id < u32::MAX,
            old(self)@.table.slot_top < u32::MAX,
        ensures
            final(self).wf(),
            id == old(self)@.table.next_id,
            final(self)@ == old(self)@.created(),
    {
        let ghost before = self@;
        let id: u32 = self.table.create();
        let mut l: usize = 0;
        while l < LAYERS
            invariant
                l <= LAYERS,
                before.valid(),
                self.layers@.len() == LAYERS,
                self.uniform_capacity == before.uniform_capacity,
                self.table@ == before.table.created(),
                self.table.wf(),
                forall|k: int| 0 <= k < LAYERS ==> (#[trigger] self.layers@[k]).wf(),
                forall|k: int|
                    0 <= k < l ==> (#[trigger] self.layers@[k])@ == before.layers[k].with_block(),
                forall|k: int|
                    l <= k < LAYERS ==> (#[trigger] self.layers@[k])@ == before.layers[k],
            decreases LAYERS - l,
        {
            self.layers[l].push();
            l = l + 1;
        }
        self.damaged = true;
        proof {
            assert(self@ =~= before.created());
            assert forall|k: int| 0 <= k < LAYERS implies {
                &&& (#[trigger] self@.layers[k]).valid()
                &&& self@.layers[k].spans.len() == self@.table.blocks.len()
                &&& self@.layers[k].arena.stride == stride_of(k)
            } by {
                self.layers@[k].lemma_valid();
                assert(before.layers[k].valid());
            }
        }
        id
    }

    /// Drops a block.
    pub fn remove(&mut self, i: usize)
        requires
            old(self).wf(),
            i < old(self)@.table.blocks.len(),
        ensures
            final(self).wf(),
            final(self)@ == old(self)@.dropped(i as int),
            forall|l: int, k: int|
                0 <= l < LAYERS && 0 <= k < final(self)@.table.blocks.len()
                    ==> #[trigger] final(self)@.content(l, k) == old(self)@.content(
                    l,
                    layers::skipping(i as int, k),
                ),
    {
        let ghost before = self@;
        self.table.remove(i);
        let mut l: usize = 0;
        while l < LAYERS
            invariant
                l <= LAYERS,
                before.valid(),
                i < before.table.blocks.len(),
                self.layers@.len() == LAYERS,
                self.uniform_capacity == before.uniform_capacity,
                self.table@ == before.table.dropped(i as int),
                self.table.wf(),
                forall|k: int| 0 <= k < LAYERS ==> (#[trigger] self.layers@[k]).wf(),
                forall|k: int|
                    0 <= k < l ==> (#[trigger] self.layers@[k])@ == before.layers[k].without_block(
                        i as int,
                    ).tidied(),
                forall|k: int, b: int|
                    0 <= k < l && 0 <= b < before.table.blocks.len() - 1
                        ==> #[trigger] self.layers@[k]@.content(b) == before.layers[k].content(
                        layers::skipping(i as int, b),
                    ),
                forall|k: int|
                    0 <= k < l ==> (#[trigger] self.layers@[k])@.spans.len()
                        == before.table.blocks.len() - 1 && self.layers@[k]@.arena.stride
                        == stride_of(k),
                forall|k: int|
                    l <= k < LAYERS ==> (#[trigger] self.layers@[k])@ == before.layers[k],
            decreases LAYERS - l,
        {
            assert(before.layers[l as int].valid());
            self.layers[l].remove(i);
            let ghost middle = self.layers@[l as int]@;
            self.layers[l].tidy();
            assert forall|b: int| 0 <= b < before.table.blocks.len() - 1 implies
                #[trigger] self.layers@[l as int]@.content(b) == before.layers[l as int].content(
                layers::skipping(i as int, b),
            ) by {
                assert(middle.content(b) == before.layers[l as int].content(
                    layers::skipping(i as int, b),
                ));
            }
            l = l + 1;
        }
        self.damaged = true;
        proof {
            assert(self@ =~= before.dropped(i as int));
            assert forall|k: int| 0 <= k < LAYERS implies {
                &&& (#[trigger] self@.layers[k]).valid()
                &&& self@.layers[k].spans.len() == self@.table.blocks.len()
                &&& self@.layers[k].arena.stride == stride_of(k)
            } by {
                self.layers@[k].lemma_valid();
            }
            assert forall|k: int, b: int|
                0 <= k < LAYERS && 0 <= b < self@.table.blocks.len() implies #[trigger] self@.content(
                k,
                b,
            ) == before.content(k, layers::skipping(i as int, b)) by {
                assert(self.layers@[k]@.content(b) == before.layers[k].content(
                    layers::skipping(i as int, b),
                ));
            }
        }
    }

    /// Whether a block has no instances.
    fn blank(&self, i: usize) -> (yes: bool)
        requires
            self.wf(),
            i < self@.table.blocks.len(),
        ensures
            yes == self@.is_blank(i as int),
    {
        let mut l: usize = 0;
        while l < LAYERS
            invariant
                self.wf(),
                i < self@.table.blocks.len(),
                l <= LAYERS,
                forall|k: int| 0 <= k < l ==> (#[trigger] self@.layers[k]).spans[i as int].len == 0,
            decreases LAYERS - l,
        {
            assert(self@.layers[l as int].valid());
            if !self.layers[l].span(i).is_empty() {
                return false;
            }
            l = l + 1;
        }
        true
    }

    /// Whether there is room for the content on every layer.
    pub fn has_room(&self, staged: &Staged) -> (yes: bool)
        requires
            self.wf(),
            staged@.valid(),
        ensures
            yes == self@.has_room(staged@),
    {
        let mut l: usize = 0;
        while l < LAYERS
            invariant
                self.wf(),
                staged@.valid(),
                l <= LAYERS,
                forall|k: int|
                    0 <= k < l ==> (#[trigger] self@.layers[k]).has_room(
                        staged@.layers[k].len() as int / stride_of(k),
                    ),
            decreases LAYERS - l,
        {
            assert(self@.layers[l as int].valid());
            assert(staged@.layers[l as int] == staged.layers@[l as int]@);
            if !self.layers[l].room_for(staged.layers[l].as_slice()) {
                assert(!self@.layers[l as int].has_room(
                    staged@.layers[l as int].len() as int / stride_of(l as int),
                ));
                return false;
            }
            l = l + 1;
        }
        true
    }

    /// Puts content into a block, in place of what is there. Only this block's instances
    /// are to be uploaded for it, unless a layer was packed on the occasion.
    pub fn commit(&mut self, i: usize, staged: &Staged)
        requires
            old(self).wf(),
            i < old(self)@.table.blocks.len(),
            staged@.valid(),
            old(self)@.has_room(staged@),
        ensures
            final(self).wf(),
            final(self)@ == old(self)@.committed(i as int, staged@),
            forall|l: int| 0 <= l < LAYERS ==> #[trigger] final(self)@.content(l, i as int)
                == staged@.layers[l],
            forall|l: int, k: int|
                0 <= l < LAYERS && 0 <= k < old(self)@.table.blocks.len() && k != i
                    ==> #[trigger] final(self)@.content(l, k) == old(self)@.content(l, k),
    {
        let ghost before = self@;
        let mut empty: bool = true;
        let mut l: usize = 0;
        while l < LAYERS
            invariant
                staged@.valid(),
                l <= LAYERS,
                empty <==> forall|k: int|
                    0 <= k < l ==> (#[trigger] staged@.layers[k]).len() == 0,
            decreases LAYERS - l,
        {
            assert(staged@.layers[l as int] == staged.layers@[l as int]@);
            if staged.layers[l].len() != 0 {
                empty = false;
            }
            l = l + 1;
        }
        if empty && self.blank(i) {
            self.table.set_stale(i, staged.stale);
            proof {
                assert(self@ =~= before.committed(i as int, staged@));
                assert forall|l: int| 0 <= l < LAYERS implies #[trigger] self@.content(l, i as int)
                    == staged@.layers[l] by {
                    let layer = self@.layers[l];
                    assert(layer.valid());
                    assert(layer.spans[i as int].len == 0);
                    arena::lemma_content_len(layer.arena, layer.spans[i as int]);
                    assert(0 * layer.arena.stride == 0) by (nonlinear_arith);
                    assert(staged@.layers[l].len() == 0);
                    assert(layer.content(i as int) =~= staged@.layers[l]);
                }
            }
            return;
        }
        let mut l: usize = 0;
        while l < LAYERS
            invariant
                l <= LAYERS,
                before.valid(),
                before.has_room(staged@),
                staged@.valid(),
                i < before.table.blocks.len(),
                self.layers@.len() == LAYERS,
                self.uniform_capacity == before.uniform_capacity,
                self.table@ == before.table,
                self.table.wf(),
                forall|k: int| 0 <= k < LAYERS ==> (#[trigger] self.layers@[k]).wf(),
                forall|k: int|
                    0 <= k < l ==> (#[trigger] self.layers@[k])@ == before.layers[k].with_content(
                        i as int,
                        staged@.layers[k],
                    ).tidied(),
                forall|k: int, b: int|
                    0 <= k < l && 0 <= b < before.table.blocks.len()
                        ==> #[trigger] self.layers@[k]@.content(b) == if b == i {
                        staged@.layers[k]
                    } else {
                        before.layers[k].content(b)
                    },
                forall|k: int|
                    0 <= k < l ==> (#[trigger] self.layers@[k])@.spans.len()
                        == before.table.blocks.len() && self.layers@[k]@.arena.stride
                        == stride_of(k),
                forall|k: int|
                    l <= k < LAYERS ==> (#[trigger] self.layers@[k])@ == before.layers[k],
            decreases LAYERS - l,
        {
            assert(before.layers[l as int].valid());
            assert(staged@.layers[l as int] == staged.layers@[l as int]@);
            self.layers[l].set(i, staged.layers[l].as_slice());
            let ghost middle = self.layers@[l as int]@;
            self.layers[l].tidy();
            assert forall|b: int| 0 <= b < before.table.blocks.len() implies
                #[trigger] self.layers@[l as int]@.content(b) == if b == i {
                staged@.layers[l as int]
            } else {
                before.layers[l as int].content(b)
            } by {
                assert(middle.content(b) == if b == i {
                    staged@.layers[l as int]
                } else {
                    before.layers[l as int].content(b)
                });
            }
            l = l + 1;
        }
        self.table.set_content_dirty(i, true);
        self.table.set_stale(i, staged.stale);
        if staged.collect_keys {
            let curve_keys: Vec<GlyphKey> = copied_curve_keys(&staged.curve_keys);
            let atlas_keys: Vec<AtlasKey> = copied_atlas_keys(&staged.atlas_keys);
            self.table.set_keys(i, curve_keys, atlas_keys);
        }
        self.damaged = true;
        proof {
            assert(!(before.is_blank(i as int) && staged@.is_empty()));
            assert(self@.table =~= before.committed(i as int, staged@).table);
            assert(self@.layers =~= before.committed(i as int, staged@).layers);
            assert(self@ =~= before.committed(i as int, staged@));
            assert forall|k: int| 0 <= k < LAYERS implies {
                &&& (#[trigger] self@.layers[k]).valid()
                &&& self@.layers[k].spans.len() == self@.table.blocks.len()
                &&& self@.layers[k].arena.stride == stride_of(k)
            } by {
                self.layers@[k].lemma_valid();
            }
            assert forall|l: int| 0 <= l < LAYERS implies #[trigger] self@.content(l, i as int)
                == staged@.layers[l] by {
                assert(self.layers@[l]@.content(i as int) == staged@.layers[l]);
            }
            assert forall|l: int, k: int|
                0 <= l < LAYERS && 0 <= k < before.table.blocks.len() && k != i implies
                #[trigger] self@.content(l, k) == before.content(l, k) by {
                assert(self.layers@[l]@.content(k) == before.layers[l].content(k));
            }
        }
    }

    /// Moves a block, which touches no instance.
    pub fn set_offset(&mut self, i: usize, offset: (u32, u32))
        requires
            old(self).wf(),
            i < old(self)@.table.blocks.len(),
        ensures
            final(self).wf(),
            final(self)@ == (RetainedState {
                table: old(self)@.table.with(
                    i as int,
                    BlockState {
                        offset,
                        uniform_dirty: true,
                        ..old(self)@.table.blocks[i as int]
                    },
                ),
                damaged: true,
                ..old(self)@
            }),
    {
        self.table.set_offset(i, offset);
        self.damaged = true;
        proof {
            self.lemma_layers_kept(*old(self));
        }
    }

    /// Shows or hides a block, which keeps its instances either way.
    pub fn set_visible(&mut self, i: usize, visible: bool)
        requires
            old(self).wf(),
            i < old(self)@.table.blocks.len(),
        ensures
            final(self).wf(),
            final(self)@ == (RetainedState {
                table: old(self)@.table.with(
                    i as int,
                    BlockState { visible, ..old(self)@.table.blocks[i as int] },
                ),
                damaged: true,
                ..old(self)@
            }),
    {
        self.table.set_visible(i, visible);
        self.damaged = true;
        proof {
            self.lemma_layers_kept(*old(self));
        }
    }

    proof fn lemma_layers_kept(&self, before: Retained)
        requires
            before.wf(),
            self.layers == before.layers,
            self.table.wf(),
            self.table@.blocks.len() == before.table@.blocks.len(),
        ensures
            self.wf(),
            self@.layers == before@.layers,
    {
        assert(self@.layers =~= before@.layers);
        assert forall|l: int| 0 <= l < LAYERS implies {
            &&& (#[trigger] self@.layers[l]).valid()
            &&& self@.layers[l].spans.len() == self@.table.blocks.len()
            &&& self@.layers[l].arena.stride == stride_of(l)
        } by {
            assert(before@.layers[l].valid());
        }
    }
}

fn copied_curve_keys(keys: &Vec<GlyphKey>) -> (copy: Vec<GlyphKey>)
    ensures
        copy@ == keys@,
{
    let mut copy: Vec<GlyphKey> = Vec::new();
    let mut i: usize = 0;
    while i < keys.len()
        invariant
            i <= keys@.len(),
            copy@ == keys@.take(i as int),
        decreases keys@.len() - i,
    {
        copy.push(keys[i]);
        i = i + 1;
        assert(copy@ =~= keys@.take(i as int));
    }
    assert(keys@.take(i as int) =~= keys@);
    copy
}

fn copied_atlas_keys(keys: &Vec<AtlasKey>) -> (copy: Vec<AtlasKey>)
    ensures
        copy@ == keys@,
{
    let mut copy: Vec<AtlasKey> = Vec::new();
    let mut i: usize = 0;
    while i < keys.len()
        invariant
            i <= keys@.len(),
            copy@ == keys@.take(i as int),
        decreases keys@.len() - i,
    {
        copy.push(keys[i]);
        i = i + 1;
        assert(copy@ =~= keys@.take(i as int));
    }
    assert(keys@.take(i as int) =~= keys@);
    copy
}

/// A number modulo two to the power of 32.
pub open spec fn wrapped(n: int) -> u32 {
    (n % 0x1_0000_0000) as u32
}

/// A word of instances of curves once the glyphs have moved: an instance whose glyph moved
/// points at its new place, both masters by the same distance, and one whose glyph is gone
/// has no curves.
pub open spec fn relocated_word(words: Seq<u32>, moves: Map<u32, u32>, at: int) -> u32 {
    let first = words[at - at % (VECTOR_WORDS as int) + FIRST_WORD];
    let part = at % (VECTOR_WORDS as int);
    if part == COUNT_WORD && !moves.contains_key(first) {
        0
    } else if part == FIRST_WORD && moves.contains_key(first) {
        moves[first]
    } else if part == B_FIRST_WORD && moves.contains_key(first) && words[at] != 0 {
        wrapped(moves[first] + words[at] - first)
    } else {
        words[at]
    }
}

/// Instances of curves once the glyphs have moved.
pub open spec fn relocated(words: Seq<u32>, moves: Map<u32, u32>) -> Seq<u32> {
    Seq::new(words.len(), |at: int| relocated_word(words, moves, at))
}

/// The glyph of one of the first `n` instances is gone.
pub open spec fn lost(words: Seq<u32>, moves: Map<u32, u32>, n: int) -> bool {
    exists|k: int|
        0 <= k < n && !moves.contains_key(#[trigger] words[k * VECTOR_WORDS + FIRST_WORD])
}

/// The first `n` instances once the glyphs have moved, and the others as they were.
spec fn partly_relocated(words: Seq<u32>, moves: Map<u32, u32>, n: int) -> Seq<u32> {
    Seq::new(
        words.len(),
        |at: int|
            if at < n * VECTOR_WORDS {
                relocated_word(words, moves, at)
            } else {
                words[at]
            },
    )
}

proof fn lemma_relocate_step(words: Seq<u32>, moves: Map<u32, u32>, n: int, after: Seq<u32>)
    requires
        0 <= n,
        (n + 1) * VECTOR_WORDS <= words.len(),
        after == ({
            let before = partly_relocated(words, moves, n);
            let base = n * VECTOR_WORDS;
            let first = words[base + FIRST_WORD];
            let b_first = words[base + B_FIRST_WORD];
            if moves.contains_key(first) {
                let moved = before.update(base + FIRST_WORD, moves[first]);
                if b_first != 0 {
                    moved.update(base + B_FIRST_WORD, wrapped(moves[first] + b_first - first))
                } else {
                    moved
                }
            } else {
                before.update(base + COUNT_WORD, 0)
            }
        }),
    ensures
        after == partly_relocated(words, moves, n + 1),
{
    let goal = partly_relocated(words, moves, n + 1);
    let base = n * VECTOR_WORDS;
    assert forall|at: int| 0 <= at < words.len() implies after[at] == goal[at] by {
        if base <= at < base + VECTOR_WORDS {
            assert(at % (VECTOR_WORDS as int) == at - base) by (nonlinear_arith)
                requires
                    base == n * 20,
                    base <= at < base + 20,
                    VECTOR_WORDS == 20,
            ;
        }
    }
    assert(after =~= goal);
}

/// Points a block's instances of curves at where the glyphs are now. Whether one is gone
/// comes back.
fn relocate_block(layer: &mut Layer, i: usize, store: &CurveStore) -> (missing: bool)
    requires
        old(layer).wf(),
        old(layer)@.arena.stride == VECTOR_WORDS,
        i < old(layer)@.spans.len(),
    ensures
        final(layer).wf(),
        final(layer)@.spans == old(layer)@.spans,
        final(layer)@.arena == (ArenaState {
            words: final(layer)@.arena.words,
            ..old(layer)@.arena
        }),
        final(layer)@.content(i as int) == relocated(
            old(layer)@.content(i as int),
            store@.relocations,
        ),
        forall|k: int|
            0 <= k < old(layer)@.spans.len() && k != i ==> #[trigger] final(layer)@.content(k)
                == old(layer)@.content(k),
        missing == lost(
            old(layer)@.content(i as int),
            store@.relocations,
            old(layer)@.spans[i as int].len as int,
        ),
{
    let ghost before = layer@;
    let ghost words = before.content(i as int);
    let ghost moves = store@.relocations;
    let span: Span = layer.span(i);
    proof {
        layer.lemma_valid();
        arena::lemma_content_len(before.arena, before.spans[i as int]);
        assert(partly_relocated(words, moves, 0) =~= words);
    }
    let mut missing: bool = false;
    let mut n: u32 = 0;
    while n < span.len
        invariant
            n <= span.len,
            layer.wf(),
            before.valid(),
            i < before.spans.len(),
            span == before.spans[i as int],
            before.arena.stride == VECTOR_WORDS,
            words == before.content(i as int),
            words.len() == span.len * VECTOR_WORDS <= u32::MAX,
            moves == store@.relocations,
            layer@.spans == before.spans,
            layer@.arena == (ArenaState { words: layer@.arena.words, ..before.arena }),
            layer@.content(i as int) == partly_relocated(words, moves, n as int),
            forall|k: int|
                0 <= k < before.spans.len() && k != i ==> #[trigger] layer@.content(k)
                    == before.content(k),
            missing == lost(words, moves, n as int),
        decreases span.len - n,
    {
        let ghost here = layer@.content(i as int);
        assert((n + 1) * VECTOR_WORDS <= span.len * VECTOR_WORDS) by (nonlinear_arith)
            requires
                n + 1 <= span.len,
                VECTOR_WORDS == 20,
        ;
        let base: usize = n as usize * VECTOR_WORDS;
        let first: u32 = layer.content(i)[base + FIRST_WORD];
        let b_first: u32 = layer.content(i)[base + B_FIRST_WORD];
        assert(first == words[base + FIRST_WORD] && b_first == words[base + B_FIRST_WORD]);
        assert(words[n * VECTOR_WORDS + FIRST_WORD] == first);
        match store.relocation(first) {
            Some(moved) => {
                layer.patch(i, base + FIRST_WORD, moved);
                if b_first != 0 {
                    let to: u32 = moved.wrapping_add(b_first.wrapping_sub(first));
                    proof {
                        lemma_wrapped(moved, b_first, first);
                    }
                    layer.patch(i, base + B_FIRST_WORD, to);
                }
            },
            None => {
                // No curves cover nothing, and nothing is read at the old address.
                layer.patch(i, base + COUNT_WORD, 0);
                missing = true;
            },
        }
        proof {
            lemma_relocate_step(words, moves, n as int, layer@.content(i as int));
            if moves.contains_key(first) {
                if lost(words, moves, n + 1) && !lost(words, moves, n as int) {
                    let k = choose|k: int|
                        0 <= k < n + 1 && !moves.contains_key(
                            #[trigger] words[k * VECTOR_WORDS + FIRST_WORD],
                        );
                    assert(k == n);
                }
                if lost(words, moves, n as int) {
                    let k = choose|k: int|
                        0 <= k < n && !moves.contains_key(
                            #[trigger] words[k * VECTOR_WORDS + FIRST_WORD],
                        );
                    assert(!moves.contains_key(words[k * VECTOR_WORDS + FIRST_WORD]));
                }
            }
        }
        n = n + 1;
    }
    assert(partly_relocated(words, moves, n as int) =~= relocated(words, moves));
    missing
}

proof fn lemma_wrapped(a: u32, b: u32, c: u32)
    ensures
        a.wrapping_add(b.wrapping_sub(c)) == wrapped(a + b - c),
{
}

/// Instances out of the atlas, collapsed to nothing.
pub open spec fn collapsed(words: Seq<u32>) -> Seq<u32> {
    Seq::new(
        words.len(),
        |at: int|
            if at % (ATLAS_WORDS as int) == SIZE_WORD || at % (ATLAS_WORDS as int) == SIZE_WORD + 1 {
                0
            } else {
                words[at]
            },
    )
}

spec fn partly_collapsed(words: Seq<u32>, n: int) -> Seq<u32> {
    Seq::new(
        words.len(),
        |at: int|
            if at < n * ATLAS_WORDS {
                collapsed(words)[at]
            } else {
                words[at]
            },
    )
}

proof fn lemma_collapse_step(words: Seq<u32>, n: int)
    requires
        0 <= n,
        (n + 1) * ATLAS_WORDS <= words.len(),
    ensures
        partly_collapsed(words, n).update(n * ATLAS_WORDS + SIZE_WORD, 0).update(
            n * ATLAS_WORDS + SIZE_WORD + 1,
            0,
        ) == partly_collapsed(words, n + 1),
{
    let after = partly_collapsed(words, n).update(n * ATLAS_WORDS + SIZE_WORD, 0).update(
        n * ATLAS_WORDS + SIZE_WORD + 1,
        0,
    );
    let goal = partly_collapsed(words, n + 1);
    let base = n * ATLAS_WORDS;
    assert forall|at: int| 0 <= at < words.len() implies after[at] == goal[at] by {
        if base <= at < base + ATLAS_WORDS {
            assert(at % (ATLAS_WORDS as int) == at - base) by (nonlinear_arith)
                requires
                    base == n * 16,
                    base <= at < base + 16,
                    ATLAS_WORDS == 16,
            ;
        }
    }
    assert(after =~= goal);
}

/// Collapses a block's instances out of the atlas to nothing.
fn collapse_block(layer: &mut Layer, i: usize)
    requires
        old(layer).wf(),
        old(layer)@.arena.stride == ATLAS_WORDS,
        i < old(layer)@.spans.len(),
    ensures
        final(layer).wf(),
        final(layer)@.spans == old(layer)@.spans,
        final(layer)@.arena == (ArenaState {
            words: final(layer)@.arena.words,
            ..old(layer)@.arena
        }),
        final(layer)@.content(i as int) == collapsed(old(layer)@.content(i as int)),
        forall|k: int|
            0 <= k < old(layer)@.spans.len() && k != i ==> #[trigger] final(layer)@.content(k)
                == old(layer)@.content(k),
{
    let ghost before = layer@;
    let ghost words = before.content(i as int);
    let span: Span = layer.span(i);
    proof {
        layer.lemma_valid();
        arena::lemma_content_len(before.arena, before.spans[i as int]);
        assert(partly_collapsed(words, 0) =~= words);
    }
    let mut n: u32 = 0;
    while n < span.len
        invariant
            n <= span.len,
            layer.wf(),
            before.valid(),
            i < before.spans.len(),
            span == before.spans[i as int],
            before.arena.stride == ATLAS_WORDS,
            words == before.content(i as int),
            words.len() == span.len * ATLAS_WORDS <= u32::MAX,
            layer@.spans == before.spans,
            layer@.arena == (ArenaState { words: layer@.arena.words, ..before.arena }),
            layer@.content(i as int) == partly_collapsed(words, n as int),
            forall|k: int|
                0 <= k < before.spans.len() && k != i ==> #[trigger] layer@.content(k)
                    == before.content(k),
        decreases span.len - n,
    {
        assert((n + 1) * ATLAS_WORDS <= span.len * ATLAS_WORDS) by (nonlinear_arith)
            requires
                n + 1 <= span.len,
                ATLAS_WORDS == 16,
        ;
        let base: usize = n as usize * ATLAS_WORDS;
        layer.patch(i, base + SIZE_WORD, 0);
        layer.patch(i, base + SIZE_WORD + 1, 0);
        proof {
            lemma_collapse_step(words, n as int);
        }
        n = n + 1;
    }
    assert(partly_collapsed(words, n as int) =~= collapsed(words));
}

/// The same spans in the same arena, but for what the words are.
pub open spec fn same_shape(before: LayerState, after: LayerState) -> bool {
    &&& after.spans == before.spans
    &&& after.arena == ArenaState { words: after.arena.words, ..before.arena }
}

/// The state once the glyphs of curves have moved: every instance points at its glyph's new
/// place, blocks with such instances are to be uploaded, and blocks with a glyph that is
/// gone are stale.
pub open spec fn relocates(before: RetainedState, moves: Map<u32, u32>, after: RetainedState) -> bool {
    &&& after.damaged
    &&& after.uniform_capacity == before.uniform_capacity
    &&& after.table.blocks.len() == before.table.blocks.len()
    &&& after.table == TableState { blocks: after.table.blocks, ..before.table }
    &&& after.layers.len() == before.layers.len()
    &&& forall|l: int| 0 <= l < LAYERS ==> same_shape(before.layers[l], #[trigger] after.layers[l])
    &&& forall|i: int|
        0 <= i < before.table.blocks.len() ==> #[trigger] after.table.blocks[i] == (BlockState {
            content_dirty: before.table.blocks[i].content_dirty
                || before.layers[VECTOR as int].spans[i].len > 0
                || before.layers[BLEND as int].spans[i].len > 0,
            stale: before.table.blocks[i].stale || lost(
                before.content(VECTOR as int, i),
                moves,
                before.layers[VECTOR as int].spans[i].len as int,
            ) || lost(
                before.content(BLEND as int, i),
                moves,
                before.layers[BLEND as int].spans[i].len as int,
            ),
            ..before.table.blocks[i]
        })
    &&& forall|l: int, i: int|
        0 <= l < LAYERS && 0 <= i < before.table.blocks.len() ==> #[trigger] after.content(l, i)
            == if l == VECTOR || l == BLEND {
            relocated(before.content(l, i), moves)
        } else {
            before.content(l, i)
        }
}

/// Where a word of an instance is among the words of a block's instances of curves.
pub open spec fn vector_word(k: int, part: int) -> int {
    k * VECTOR_WORDS + part
}

/// After curves have moved, an instance whose glyph is gone draws nothing, and its block is
/// stale.
pub proof fn lemma_lost_glyph_draws_nothing(
    before: RetainedState,
    moves: Map<u32, u32>,
    after: RetainedState,
    l: int,
    i: int,
    k: int,
)
    requires
        before.valid(),
        relocates(before, moves, after),
        l == VECTOR || l == BLEND,
        0 <= i < before.table.blocks.len(),
        0 <= k < before.layers[l].spans[i].len,
        !moves.contains_key(before.content(l, i)[vector_word(k, FIRST_WORD as int)]),
    ensures
        after.content(l, i)[vector_word(k, COUNT_WORD as int)] == 0,
        after.table.blocks[i].stale,
{
    let words = before.content(l, i);
    lemma_content_len(before, l, i);
    lemma_vector_word(k, COUNT_WORD as int);
    assert(words[k * VECTOR_WORDS + FIRST_WORD] == words[vector_word(k, FIRST_WORD as int)]);
    assert(after.content(l, i) == relocated(words, moves));
}

/// After curves have moved, an instance whose glyph was kept draws the same curves: it
/// points at the glyph's new place, its second master at the same distance from the first.
pub proof fn lemma_kept_glyph_is_followed(
    before: RetainedState,
    moves: Map<u32, u32>,
    after: RetainedState,
    l: int,
    i: int,
    k: int,
)
    requires
        before.valid(),
        relocates(before, moves, after),
        l == VECTOR || l == BLEND,
        0 <= i < before.table.blocks.len(),
        0 <= k < before.layers[l].spans[i].len,
        moves.contains_key(before.content(l, i)[vector_word(k, FIRST_WORD as int)]),
    ensures
        ({
            let was = before.content(l, i);
            let now = after.content(l, i);
            let first = was[vector_word(k, FIRST_WORD as int)];
            let second = was[vector_word(k, B_FIRST_WORD as int)];
            &&& now[vector_word(k, FIRST_WORD as int)] == moves[first]
            &&& now[vector_word(k, COUNT_WORD as int)] == was[vector_word(k, COUNT_WORD as int)]
            &&& second == 0 ==> now[vector_word(k, B_FIRST_WORD as int)] == 0
            &&& second != 0 && 0 <= moves[first] + second - first <= u32::MAX
                ==> now[vector_word(k, B_FIRST_WORD as int)] - moves[first] == second - first
        }),
{
    let words = before.content(l, i);
    lemma_content_len(before, l, i);
    lemma_vector_word(k, COUNT_WORD as int);
    lemma_vector_word(k, FIRST_WORD as int);
    lemma_vector_word(k, B_FIRST_WORD as int);
    assert(after.content(l, i) == relocated(words, moves));
}

proof fn lemma_vector_word(k: int, part: int)
    requires
        0 <= k,
        0 <= part < VECTOR_WORDS,
    ensures
        vector_word(k, part) % (VECTOR_WORDS as int) == part,
        vector_word(k, part) - part == k * VECTOR_WORDS,
{
}

proof fn lemma_content_len(state: RetainedState, l: int, i: int)
    requires
        state.valid(),
        l == VECTOR || l == BLEND,
        0 <= i < state.table.blocks.len(),
    ensures
        state.content(l, i).len() == state.layers[l].spans[i].len * VECTOR_WORDS,
{
    let layer = state.layers[l];
    let span = layer.spans[i];
    assert(layer.valid());
    assert(layer.arena.holds(span));
    arena::lemma_content_len(layer.arena, span);
}

/// The state once every place in the atlas is void: its instances are collapsed to
/// nothing, and the blocks that had any are stale.
pub open spec fn blanks(before: RetainedState, after: RetainedState) -> bool {
    &&& after.damaged
    &&& after.uniform_capacity == before.uniform_capacity
    &&& after.table.blocks.len() == before.table.blocks.len()
    &&& after.table == TableState { blocks: after.table.blocks, ..before.table }
    &&& after.layers.len() == before.layers.len()
    &&& forall|l: int| 0 <= l < LAYERS ==> same_shape(before.layers[l], #[trigger] after.layers[l])
    &&& forall|i: int|
        0 <= i < before.table.blocks.len() ==> #[trigger] after.table.blocks[i] == if before.layers[ATLAS as int].spans[i].len
            > 0 {
            BlockState { content_dirty: true, stale: true, ..before.table.blocks[i] }
        } else {
            before.table.blocks[i]
        }
    &&& forall|l: int, i: int|
        0 <= l < LAYERS && 0 <= i < before.table.blocks.len() ==> #[trigger] after.content(l, i)
            == if l == ATLAS {
            collapsed(before.content(l, i))
        } else {
            before.content(l, i)
        }
}

impl Retained {
    /// Points the instances of curves at where the glyphs are now.
    pub fn relocate(&mut self, store: &CurveStore)
        requires
            old(self).wf(),
        ensures
            final(self).wf(),
            relocates(old(self)@, store@.relocations, final(self)@),
    {
        let ghost before = self@;
        let ghost moves = store@.relocations;
        let count: usize = self.table.len();
        let mut i: usize = 0;
        while i < count
            invariant
                i <= count == before.table.blocks.len(),
                before.valid(),
                moves == store@.relocations,
                self.layers@.len() == LAYERS,
                self.uniform_capacity == before.uniform_capacity,
                self.table.wf(),
                self.table@.blocks.len() == count,
                self.table@ == (TableState { blocks: self.table@.blocks, ..before.table }),
                forall|l: int| 0 <= l < LAYERS ==> (#[trigger] self.layers@[l]).wf(),
                forall|l: int|
                    0 <= l < LAYERS ==> same_shape(before.layers[l], (#[trigger] self.layers@[l])@),
                forall|b: int| i <= b < count ==> #[trigger] self.table@.blocks[b]
                    == before.table.blocks[b],
                forall|b: int|
                    0 <= b < i ==> #[trigger] self.table@.blocks[b] == (BlockState {
                        content_dirty: before.table.blocks[b].content_dirty
                            || before.layers[VECTOR as int].spans[b].len > 0
                            || before.layers[BLEND as int].spans[b].len > 0,
                        stale: before.table.blocks[b].stale || lost(
                            before.content(VECTOR as int, b),
                            moves,
                            before.layers[VECTOR as int].spans[b].len as int,
                        ) || lost(
                            before.content(BLEND as int, b),
                            moves,
                            before.layers[BLEND as int].spans[b].len as int,
                        ),
                        ..before.table.blocks[b]
                    }),
                forall|l: int, b: int|
                    0 <= l < LAYERS && 0 <= b < count ==> #[trigger] self.layers@[l]@.content(b)
                        == if (l == VECTOR || l == BLEND) && b < i {
                        relocated(before.content(l, b), moves)
                    } else {
                        before.content(l, b)
                    },
            decreases count - i,
        {
            let ghost start = *self;
            proof {
                assert(before.layers[VECTOR as int].valid());
                assert(before.layers[BLEND as int].valid());
                assert(same_shape(before.layers[VECTOR as int], self.layers@[VECTOR as int]@));
                assert(same_shape(before.layers[BLEND as int], self.layers@[BLEND as int]@));
                assert(self.layers@[VECTOR as int]@.content(i as int) == before.content(
                    VECTOR as int,
                    i as int,
                ));
                assert(self.layers@[BLEND as int]@.content(i as int) == before.content(
                    BLEND as int,
                    i as int,
                ));
            }
            let some: bool = !self.layers[VECTOR].span(i).is_empty()
                || !self.layers[BLEND].span(i).is_empty();
            let missing_a: bool = relocate_block(&mut self.layers[VECTOR], i, store);
            let missing_b: bool = relocate_block(&mut self.layers[BLEND], i, store);
            proof {
                assert forall|l: int, b: int| 0 <= l < LAYERS && 0 <= b < count implies
                    #[trigger] self.layers@[l]@.content(b) == if (l == VECTOR || l == BLEND) && b
                    < i + 1 {
                    relocated(before.content(l, b), moves)
                } else {
                    before.content(l, b)
                } by {
                    assert(start.layers@[l]@.content(b) == if (l == VECTOR || l == BLEND) && b < i {
                        relocated(before.content(l, b), moves)
                    } else {
                        before.content(l, b)
                    });
                }
                assert forall|l: int| 0 <= l < LAYERS implies same_shape(
                    before.layers[l],
                    (#[trigger] self.layers@[l])@,
                ) by {
                    assert(same_shape(before.layers[l], start.layers@[l]@));
                }
            }
            if some {
                self.table.set_content_dirty(i, true);
            }
            if missing_a || missing_b {
                self.table.set_stale(i, true);
            }
            i = i + 1;
        }
        self.damaged = true;
        proof {
            self.lemma_reshaped(before);
            assert forall|l: int, b: int|
                0 <= l < LAYERS && 0 <= b < before.table.blocks.len() implies #[trigger] self@.content(
                l,
                b,
            ) == if l == VECTOR || l == BLEND {
                relocated(before.content(l, b), moves)
            } else {
                before.content(l, b)
            } by {
                assert(self.layers@[l]@.content(b) == self@.content(l, b));
            }
        }
    }

    proof fn lemma_reshaped(&self, before: RetainedState)
        requires
            before.valid(),
            self.layers@.len() == LAYERS,
            self.table.wf(),
            self.table@.blocks.len() == before.table.blocks.len(),
            forall|l: int| 0 <= l < LAYERS ==> (#[trigger] self.layers@[l]).wf(),
            forall|l: int|
                0 <= l < LAYERS ==> same_shape(before.layers[l], (#[trigger] self.layers@[l])@),
        ensures
            self.wf(),
            forall|l: int|
                0 <= l < LAYERS ==> same_shape(before.layers[l], #[trigger] self@.layers[l]),
    {
        assert forall|l: int| 0 <= l < LAYERS implies {
            &&& (#[trigger] self@.layers[l]).valid()
            &&& self@.layers[l].spans.len() == self@.table.blocks.len()
            &&& self@.layers[l].arena.stride == stride_of(l)
            &&& same_shape(before.layers[l], self@.layers[l])
        } by {
            self.layers@[l].lemma_valid();
            assert(same_shape(before.layers[l], self.layers@[l]@));
            assert(before.layers[l].valid());
        }
    }

    /// Collapses the instances out of the atlas to nothing, after all places in it became
    /// void.
    pub fn blank_atlas(&mut self)
        requires
            old(self).wf(),
        ensures
            final(self).wf(),
            blanks(old(self)@, final(self)@),
    {
        let ghost before = self@;
        let count: usize = self.table.len();
        let mut i: usize = 0;
        while i < count
            invariant
                i <= count == before.table.blocks.len(),
                before.valid(),
                self.layers@.len() == LAYERS,
                self.uniform_capacity == before.uniform_capacity,
                self.table.wf(),
                self.table@.blocks.len() == count,
                self.table@ == (TableState { blocks: self.table@.blocks, ..before.table }),
                forall|l: int| 0 <= l < LAYERS ==> (#[trigger] self.layers@[l]).wf(),
                forall|l: int|
                    0 <= l < LAYERS ==> same_shape(before.layers[l], (#[trigger] self.layers@[l])@),
                forall|b: int| i <= b < count ==> #[trigger] self.table@.blocks[b]
                    == before.table.blocks[b],
                forall|b: int|
                    0 <= b < i ==> #[trigger] self.table@.blocks[b] == if before.layers[ATLAS as int].spans[b].len
                        > 0 {
                        BlockState { content_dirty: true, stale: true, ..before.table.blocks[b] }
                    } else {
                        before.table.blocks[b]
                    },
                forall|l: int, b: int|
                    0 <= l < LAYERS && 0 <= b < count ==> #[trigger] self.layers@[l]@.content(b)
                        == if l == ATLAS && b < i {
                        collapsed(before.content(l, b))
                    } else {
                        before.content(l, b)
                    },
            decreases count - i,
        {
            let ghost start = *self;
            proof {
                assert(before.layers[ATLAS as int].valid());
                assert(same_shape(before.layers[ATLAS as int], self.layers@[ATLAS as int]@));
                assert(self.layers@[ATLAS as int]@.content(i as int) == before.content(
                    ATLAS as int,
                    i as int,
                ));
            }
            let some: bool = !self.layers[ATLAS].span(i).is_empty();
            collapse_block(&mut self.layers[ATLAS], i);
            proof {
                assert forall|l: int, b: int| 0 <= l < LAYERS && 0 <= b < count implies
                    #[trigger] self.layers@[l]@.content(b) == if l == ATLAS && b < i + 1 {
                    collapsed(before.content(l, b))
                } else {
                    before.content(l, b)
                } by {
                    assert(start.layers@[l]@.content(b) == if l == ATLAS && b < i {
                        collapsed(before.content(l, b))
                    } else {
                        before.content(l, b)
                    });
                }
                assert forall|l: int| 0 <= l < LAYERS implies same_shape(
                    before.layers[l],
                    (#[trigger] self.layers@[l])@,
                ) by {
                    assert(same_shape(before.layers[l], start.layers@[l]@));
                }
            }
            if some {
                self.table.set_stale(i, true);
                self.table.set_content_dirty(i, true);
            }
            i = i + 1;
        }
        self.damaged = true;
        proof {
            self.lemma_reshaped(before);
            assert forall|l: int, b: int|
                0 <= l < LAYERS && 0 <= b < before.table.blocks.len() implies #[trigger] self@.content(
                l,
                b,
            ) == if l == ATLAS {
                collapsed(before.content(l, b))
            } else {
                before.content(l, b)
            } by {
                assert(self.layers@[l]@.content(b) == self@.content(l, b));
            }
        }
    }
}

/// What an upload of everything that changed carries.
#[derive(Clone, Copy, Debug, Default, PartialEq, Eq, Structural)]
pub struct UploadStats {
    /// Writes of instances.
    pub content_writes: u32,
    /// Instances that those writes carry.
    pub instances: u32,
    /// Writes of block uniforms.
    pub uniform_writes: u32,
}

/// One write of instances: a block's, or those of a whole layer.
#[derive(Clone, Copy, Debug, PartialEq, Eq)]
pub struct ContentUpload {
    pub layer: usize,
    /// The number of the block's handle; nothing where the whole layer is written.
    pub block: Option<u32>,
    pub span: Span,
}

/// One write of a block's uniform.
#[derive(Clone, Copy, Debug, PartialEq, Eq)]
pub struct UniformUpload {
    pub slot: u32,
    pub offset: (u32, u32),
}

/// One draw call.
#[derive(Clone, Copy, Debug, PartialEq, Eq)]
pub struct Draw {
    /// The place of the block's uniform.
    pub slot: u32,
    pub layer: usize,
    pub span: Span,
}

/// The layer outgrew its buffer: a larger one is to be made, which starts empty.
pub open spec fn outgrown(layer: LayerState) -> bool {
    0 < layer.arena.top && layer.arena.capacity < layer.arena.top
}

/// The whole layer is to be written.
pub open spec fn wholly(layer: LayerState) -> bool {
    layer.arena.full || outgrown(layer)
}

/// The writes of whole layers, of the first `n` layers.
pub open spec fn whole_uploads(layers: Seq<LayerState>, n: int) -> Seq<ContentUpload>
    decreases n,
{
    if n <= 0 {
        Seq::empty()
    } else if wholly(layers[n - 1]) {
        let top = layers[n - 1].arena.top as u32;
        whole_uploads(layers, n - 1).push(
            ContentUpload {
                layer: (n - 1) as usize,
                block: None,
                span: Span { start: 0, cap: top, len: top },
            },
        )
    } else {
        whole_uploads(layers, n - 1)
    }
}

/// The writes of a block's instances, on those of the first `n` layers that are not
/// written as a whole.
pub open spec fn block_uploads(layers: Seq<LayerState>, id: u32, i: int, n: int) -> Seq<
    ContentUpload,
>
    decreases n,
{
    if n <= 0 {
        Seq::empty()
    } else if !wholly(layers[n - 1]) && layers[n - 1].spans[i].len > 0 {
        block_uploads(layers, id, i, n - 1).push(
            ContentUpload {
                layer: (n - 1) as usize,
                block: Some(id),
                span: layers[n - 1].spans[i],
            },
        )
    } else {
        block_uploads(layers, id, i, n - 1)
    }
}

/// The writes of the first `n` blocks: those of the blocks whose content changed.
pub open spec fn dirty_uploads(state: RetainedState, n: int) -> Seq<ContentUpload>
    decreases n,
{
    if n <= 0 {
        Seq::empty()
    } else if state.table.blocks[n - 1].content_dirty {
        dirty_uploads(state, n - 1) + block_uploads(
            state.layers,
            state.table.blocks[n - 1].id,
            n - 1,
            LAYERS as int,
        )
    } else {
        dirty_uploads(state, n - 1)
    }
}

/// Everything that is to be written: whole layers first, then the blocks that changed, in
/// the order they are drawn.
pub open spec fn content_uploads(state: RetainedState) -> Seq<ContentUpload> {
    whole_uploads(state.layers, LAYERS as int) + dirty_uploads(
        state,
        state.table.blocks.len() as int,
    )
}

/// The instances that the writes carry.
pub open spec fn instances_in(uploads: Seq<ContentUpload>) -> int
    decreases uploads.len(),
{
    if uploads.len() == 0 {
        0
    } else {
        instances_in(uploads.drop_last()) + uploads.last().span.len
    }
}

/// A count, or the most that can be counted.
pub open spec fn counted(n: int) -> u32 {
    if n <= u32::MAX {
        n as u32
    } else {
        u32::MAX
    }
}

/// The uniforms of the first `n` blocks that are to be written: those that changed, or all
/// of them.
pub open spec fn uniform_uploads(blocks: Seq<BlockState>, all: bool, n: int) -> Seq<UniformUpload>
    decreases n,
{
    if n <= 0 {
        Seq::empty()
    } else if all || blocks[n - 1].uniform_dirty {
        uniform_uploads(blocks, all, n - 1).push(
            UniformUpload { slot: blocks[n - 1].slot, offset: blocks[n - 1].offset },
        )
    } else {
        uniform_uploads(blocks, all, n - 1)
    }
}

/// The draw calls of a block: its instances on those of the first `n` layers where it has
/// any.
pub open spec fn block_draws(layers: Seq<LayerState>, slot: u32, i: int, n: int) -> Seq<Draw>
    decreases n,
{
    if n <= 0 {
        Seq::empty()
    } else if layers[n - 1].spans[i].len > 0 && layers[n - 1].arena.capacity > 0 {
        block_draws(layers, slot, i, n - 1).push(
            Draw { slot, layer: (n - 1) as usize, span: layers[n - 1].spans[i] },
        )
    } else {
        block_draws(layers, slot, i, n - 1)
    }
}

/// The draw calls of the first `n` blocks: those of the visible ones, in the order they
/// were created.
pub open spec fn draws_of(state: RetainedState, n: int) -> Seq<Draw>
    decreases n,
{
    if n <= 0 {
        Seq::empty()
    } else if state.table.blocks[n - 1].visible {
        draws_of(state, n - 1) + block_draws(
            state.layers,
            state.table.blocks[n - 1].slot,
            n - 1,
            LAYERS as int,
        )
    } else {
        draws_of(state, n - 1)
    }
}

/// What is to be uploaded of the instances.
pub struct ContentPlan {
    /// Layers that need a larger buffer, and for how many instances.
    pub grown: Vec<(usize, u32)>,
    pub uploads: Vec<ContentUpload>,
    pub instances: u32,
}

/// What is to be uploaded of the uniforms.
pub struct UniformPlan {
    /// The size of the larger buffer to make, where one is needed.
    pub grown: Option<u32>,
    pub uploads: Vec<UniformUpload>,
}

impl Retained {
    /// The draw calls, in order.
    pub fn draws(&self) -> (draws: Vec<Draw>)
        requires
            self.wf(),
        ensures
            draws@ == draws_of(self@, self@.table.blocks.len() as int),
    {
        let mut draws: Vec<Draw> = Vec::new();
        let count: usize = self.table.len();
        let mut i: usize = 0;
        while i < count
            invariant
                self.wf(),
                i <= count == self@.table.blocks.len(),
                draws@ == draws_of(self@, i as int),
            decreases count - i,
        {
            let ghost before = draws@;
            if self.table.at(i).visible {
                let slot: u32 = self.table.at(i).slot;
                let mut l: usize = 0;
                assert(draws@ =~= before + block_draws(self@.layers, slot, i as int, 0));
                while l < LAYERS
                    invariant
                        self.wf(),
                        i < count == self@.table.blocks.len(),
                        l <= LAYERS,
                        draws@ == before + block_draws(self@.layers, slot, i as int, l as int),
                    decreases LAYERS - l,
                {
                    assert(self@.layers[l as int].valid());
                    let span: Span = self.layers[l].span(i);
                    if !span.is_empty() && self.layers[l].arena().capacity() > 0 {
                        draws.push(Draw { slot, layer: l, span });
                        assert(draws@ =~= before + block_draws(
                            self@.layers,
                            slot,
                            i as int,
                            l + 1,
                        ));
                    }
                    l = l + 1;
                }
            }
            i = i + 1;
        }
        draws
    }

    /// Settles what is to be uploaded of the uniforms, and hands it over.
    pub fn take_uniforms(&mut self) -> (plan: UniformPlan)
        requires
            old(self).wf(),
            old(self)@.table.slot_top <= 0x8000_0000,
        ensures
            final(self).wf(),
            ({
                let state = old(self)@;
                let grows = state.table.slot_top > state.uniform_capacity;
                &&& grows <==> plan.grown is Some
                &&& plan.grown matches Some(room) ==> arena::is_power_of_two(room as int)
                    && state.table.slot_top <= room < 2 * state.table.slot_top
                &&& plan.uploads@ == uniform_uploads(
                    state.table.blocks,
                    grows,
                    state.table.blocks.len() as int,
                )
                &&& final(self)@ == (RetainedState {
                    table: TableState {
                        blocks: Seq::new(
                            state.table.blocks.len(),
                            |i: int|
                                BlockState { uniform_dirty: false, ..state.table.blocks[i] },
                        ),
                        ..state.table
                    },
                    uniform_capacity: match plan.grown {
                        Some(room) => room as int,
                        None => state.uniform_capacity,
                    },
                    ..state
                })
            }),
    {
        let ghost before = self@;
        let grown: Option<u32> = if self.table.slot_top() > self.uniform_capacity {
            let room: u32 = arena::next_power_of_two(self.table.slot_top());
            self.uniform_capacity = room;
            Some(room)
        } else {
            None
        };
        let all: bool = grown.is_some();
        let mut uploads: Vec<UniformUpload> = Vec::new();
        let count: usize = self.table.len();
        let mut i: usize = 0;
        while i < count
            invariant
                i <= count == before.table.blocks.len(),
                self.layers == old(self).layers,
                self.damaged == before.damaged,
                self.table.wf(),
                self.table@.blocks.len() == count,
                self.table@ == (TableState { blocks: self.table@.blocks, ..before.table }),
                self.uniform_capacity == (match grown {
                    Some(room) => room as int,
                    None => before.uniform_capacity,
                }),
                forall|b: int| i <= b < count ==> #[trigger] self.table@.blocks[b]
                    == before.table.blocks[b],
                forall|b: int|
                    0 <= b < i ==> #[trigger] self.table@.blocks[b] == (BlockState {
                        uniform_dirty: false,
                        ..before.table.blocks[b]
                    }),
                uploads@ == uniform_uploads(before.table.blocks, all, i as int),
            decreases count - i,
        {
            assert(self.table@.blocks[i as int] == before.table.blocks[i as int]);
            if all || self.table.at(i).uniform_dirty {
                let block = self.table.at(i);
                uploads.push(UniformUpload { slot: block.slot, offset: block.offset });
                self.table.set_uniform_dirty(i, false);
            }
            i = i + 1;
        }
        proof {
            self.lemma_layers_kept(*old(self));
            let blocks = Seq::new(
                before.table.blocks.len(),
                |i: int| BlockState { uniform_dirty: false, ..before.table.blocks[i] },
            );
            assert(self@.table.blocks =~= blocks);
        }
        UniformPlan { grown, uploads }
    }
}

/// Those of the first `n` layers that outgrew their buffers, with the sizes of the larger
/// ones.
pub open spec fn grown_layers(before: Seq<LayerState>, after: Seq<LayerState>, n: int) -> Seq<
    (usize, u32),
>
    decreases n,
{
    if n <= 0 {
        Seq::empty()
    } else if outgrown(before[n - 1]) {
        grown_layers(before, after, n - 1).push(
            ((n - 1) as usize, after[n - 1].arena.capacity as u32),
        )
    } else {
        grown_layers(before, after, n - 1)
    }
}

proof fn lemma_grown_layers(before: Seq<LayerState>, a: Seq<LayerState>, b: Seq<LayerState>, n: int)
    requires
        0 <= n <= a.len(),
        n <= b.len(),
        forall|l: int| 0 <= l < n ==> a[l] == b[l],
    ensures
        grown_layers(before, a, n) == grown_layers(before, b, n),
    decreases n,
{
    if n > 0 {
        lemma_grown_layers(before, a, b, n - 1);
    }
}

/// A layer once its upload is settled.
pub open spec fn settled(before: LayerState, after: LayerState) -> bool {
    &&& after.spans == before.spans
    &&& after.arena == ArenaState { capacity: after.arena.capacity, full: false, ..before.arena }
    &&& outgrown(before) ==> arena::is_power_of_two(after.arena.capacity) && before.arena.top
        <= after.arena.capacity < 2 * before.arena.top
    &&& !outgrown(before) ==> after.arena.capacity == before.arena.capacity
}

proof fn lemma_instances_push(uploads: Seq<ContentUpload>, upload: ContentUpload)
    ensures
        instances_in(uploads.push(upload)) == instances_in(uploads) + upload.span.len,
        0 <= instances_in(uploads),
    decreases uploads.len(),
{
    assert(uploads.push(upload).drop_last() =~= uploads);
    lemma_instances_bounds(uploads);
}

proof fn lemma_instances_bounds(uploads: Seq<ContentUpload>)
    ensures
        0 <= instances_in(uploads),
    decreases uploads.len(),
{
    if uploads.len() > 0 {
        lemma_instances_bounds(uploads.drop_last());
    }
}

impl Retained {
    /// Settles what is to be uploaded of the instances, and hands it over: the whole of
    /// each layer that was packed or needs a larger buffer, and otherwise only what changed
    /// since the last time.
    pub fn take_uploads(&mut self) -> (plan: ContentPlan)
        requires
            old(self).wf(),
        ensures
            final(self).wf(),
            plan.uploads@ == content_uploads(old(self)@),
            plan.instances == counted(instances_in(plan.uploads@)),
            !final(self)@.damaged,
            final(self)@.uniform_capacity == old(self)@.uniform_capacity,
            final(self)@.table == (TableState {
                blocks: Seq::new(
                    old(self)@.table.blocks.len(),
                    |i: int| BlockState { content_dirty: false, ..old(self)@.table.blocks[i] },
                ),
                ..old(self)@.table
            }),
            forall|l: int|
                0 <= l < LAYERS ==> settled(old(self)@.layers[l], #[trigger] final(self)@.layers[l]),
            plan.grown@ == grown_layers(old(self)@.layers, final(self)@.layers, LAYERS as int),
    {
        let ghost before = self@;
        let mut grown: Vec<(usize, u32)> = Vec::new();
        let mut uploads: Vec<ContentUpload> = Vec::new();
        let mut instances: u32 = 0;
        let mut whole: Vec<bool> = Vec::new();
        let mut l: usize = 0;
        while l < LAYERS
            invariant
                l <= LAYERS,
                before.valid(),
                self.layers@.len() == LAYERS,
                self.table == old(self).table,
                self.table@ == before.table,
                self.table.wf(),
                self.uniform_capacity == before.uniform_capacity,
                whole@.len() == l,
                forall|k: int| 0 <= k < l ==> #[trigger] whole@[k] == wholly(before.layers[k]),
                forall|k: int| 0 <= k < LAYERS ==> (#[trigger] self.layers@[k]).wf(),
                forall|k: int|
                    0 <= k < l ==> settled(before.layers[k], (#[trigger] self.layers@[k])@),
                forall|k: int|
                    l <= k < LAYERS ==> (#[trigger] self.layers@[k])@ == before.layers[k],
                grown@ == grown_layers(before.layers, self@.layers, l as int),
                uploads@ == whole_uploads(before.layers, l as int),
                instances == counted(instances_in(uploads@)),
            decreases LAYERS - l,
        {
            let ghost layer = before.layers[l as int];
            let ghost held = self@.layers;
            assert(layer.valid());
            let room: Option<u32> = self.layers[l].reserve();
            if let Some(capacity) = room {
                grown.push((l, capacity));
            }
            let full: bool = self.layers[l].arena().needs_full_upload();
            if full {
                let top: u32 = self.layers[l].arena().top();
                let _written: u32 = self.layers[l].upload_all();
                let upload = ContentUpload {
                    layer: l,
                    block: None,
                    span: Span { start: 0, cap: top, len: top },
                };
                proof {
                    lemma_instances_push(uploads@, upload);
                }
                uploads.push(upload);
                instances = instances.saturating_add(top);
            }
            whole.push(full);
            proof {
                assert(settled(layer, self.layers@[l as int]@));
                lemma_grown_layers(before.layers, held, self@.layers, l as int);
                assert(grown@ =~= grown_layers(before.layers, self@.layers, l + 1));
            }
            l = l + 1;
        }
        let ghost middle = *self;
        let ghost lead = uploads@;
        let count: usize = self.table.len();
        let mut i: usize = 0;
        assert(uploads@ =~= lead + dirty_uploads(before, 0));
        while i < count
            invariant
                i <= count == before.table.blocks.len(),
                before.valid(),
                self.layers == middle.layers,
                self.layers@.len() == LAYERS,
                self.uniform_capacity == before.uniform_capacity,
                self.table.wf(),
                self.table@.blocks.len() == count,
                self.table@ == (TableState { blocks: self.table@.blocks, ..before.table }),
                whole@.len() == LAYERS,
                forall|k: int| 0 <= k < LAYERS ==> #[trigger] whole@[k] == wholly(before.layers[k]),
                forall|k: int|
                    0 <= k < LAYERS ==> settled(before.layers[k], (#[trigger] self.layers@[k])@),
                forall|b: int| i <= b < count ==> #[trigger] self.table@.blocks[b]
                    == before.table.blocks[b],
                forall|b: int|
                    0 <= b < i ==> #[trigger] self.table@.blocks[b] == (BlockState {
                        content_dirty: false,
                        ..before.table.blocks[b]
                    }),
                uploads@ == lead + dirty_uploads(before, i as int),
                instances == counted(instances_in(uploads@)),
            decreases count - i,
        {
            assert(self.table@.blocks[i as int] == before.table.blocks[i as int]);
            if self.table.at(i).content_dirty {
                let id: u32 = self.table.at(i).id;
                self.table.set_content_dirty(i, false);
                let ghost here = uploads@;
                let mut l: usize = 0;
                assert(uploads@ =~= here + block_uploads(before.layers, id, i as int, 0));
                while l < LAYERS
                    invariant
                        l <= LAYERS,
                        i < before.table.blocks.len(),
                        before.valid(),
                        self.layers == middle.layers,
                        self.layers@.len() == LAYERS,
                        whole@.len() == LAYERS,
                        forall|k: int| 0 <= k < LAYERS ==> #[trigger] whole@[k] == wholly(
                            before.layers[k],
                        ),
                        forall|k: int|
                            0 <= k < LAYERS ==> settled(
                                before.layers[k],
                                (#[trigger] self.layers@[k])@,
                            ),
                        uploads@ == here + block_uploads(before.layers, id, i as int, l as int),
                        instances == counted(instances_in(uploads@)),
                    decreases LAYERS - l,
                {
                    assert(before.layers[l as int].valid());
                    assert(settled(before.layers[l as int], self.layers@[l as int]@));
                    let span: Span = self.layers[l].span(i);
                    if !whole[l] && !span.is_empty() {
                        let upload = ContentUpload { layer: l, block: Some(id), span };
                        proof {
                            lemma_instances_push(uploads@, upload);
                        }
                        uploads.push(upload);
                        instances = instances.saturating_add(span.len);
                        assert(uploads@ =~= here + block_uploads(
                            before.layers,
                            id,
                            i as int,
                            l + 1,
                        ));
                    }
                    l = l + 1;
                }
                assert(uploads@ =~= lead + (dirty_uploads(before, i as int) + block_uploads(
                    before.layers,
                    id,
                    i as int,
                    LAYERS as int,
                )));
            }
            i = i + 1;
        }
        self.damaged = false;
        proof {
            assert forall|l: int| 0 <= l < LAYERS implies {
                &&& (#[trigger] self@.layers[l]).valid()
                &&& self@.layers[l].spans.len() == self@.table.blocks.len()
                &&& self@.layers[l].arena.stride == stride_of(l)
                &&& settled(before.layers[l], self@.layers[l])
            } by {
                assert(middle.layers@[l].wf());
                self.layers@[l].lemma_valid();
                assert(settled(before.layers[l], self.layers@[l]@));
                assert(before.layers[l].valid());
            }
            let blocks = Seq::new(
                before.table.blocks.len(),
                |i: int| BlockState { content_dirty: false, ..before.table.blocks[i] },
            );
            assert(self@.table.blocks =~= blocks);
        }
        ContentPlan { grown, uploads, instances }
    }
}

/// An idle frame uploads nothing: where no layer is to be written as a whole and no block
/// changed, there are no writes.
pub proof fn lemma_idle_uploads_nothing(state: RetainedState)
    requires
        state.valid(),
        forall|l: int| 0 <= l < LAYERS ==> !wholly(#[trigger] state.layers[l]),
        forall|i: int|
            0 <= i < state.table.blocks.len() ==> !(#[trigger] state.table.blocks[i]).content_dirty,
    ensures
        content_uploads(state).len() == 0,
{
    lemma_no_whole(state.layers, LAYERS as int);
    lemma_no_dirty(state, state.table.blocks.len() as int);
}

pub(crate) proof fn lemma_no_whole(layers: Seq<LayerState>, n: int)
    requires
        0 <= n <= LAYERS,
        forall|l: int| 0 <= l < n ==> !wholly(#[trigger] layers[l]),
    ensures
        whole_uploads(layers, n).len() == 0,
    decreases n,
{
    if n > 0 {
        lemma_no_whole(layers, n - 1);
    }
}

pub(crate) proof fn lemma_no_dirty(state: RetainedState, n: int)
    requires
        0 <= n <= state.table.blocks.len(),
        forall|i: int| 0 <= i < n ==> !(#[trigger] state.table.blocks[i]).content_dirty,
    ensures
        dirty_uploads(state, n).len() == 0,
    decreases n,
{
    if n > 0 {
        lemma_no_dirty(state, n - 1);
    }
}

/// The write is of a layer that is to be written as a whole, or of exactly the span of a
/// block whose content changed.
pub open spec fn is_due(state: RetainedState, upload: ContentUpload) -> bool {
    &&& upload.layer < LAYERS
    &&& if upload.block is None {
        wholly(state.layers[upload.layer as int])
    } else {
        exists|i: int| is_due_for(state, upload, i)
    }
}

/// The write is of exactly the span of a block whose content changed.
pub open spec fn is_due_for(state: RetainedState, upload: ContentUpload, i: int) -> bool {
    &&& 0 <= i < state.table.blocks.len()
    &&& upload.block == Some(state.table.blocks[i].id)
    &&& state.table.blocks[i].content_dirty
    &&& upload.span == state.layers[upload.layer as int].spans[i]
}

/// Only what changed is written: a write of a block's instances is of a block whose content
/// changed, and it is exactly the block's span.
pub proof fn lemma_writes_are_due(state: RetainedState, k: int)
    requires
        state.valid(),
        0 <= k < content_uploads(state).len(),
    ensures
        is_due(state, content_uploads(state)[k]),
{
    let whole = whole_uploads(state.layers, LAYERS as int);
    if k < whole.len() {
        lemma_whole_due(state.layers, LAYERS as int, k);
    } else {
        lemma_dirty_due(state, state.table.blocks.len() as int, k - whole.len());
    }
}

proof fn lemma_whole_due(layers: Seq<LayerState>, n: int, k: int)
    requires
        0 <= n <= LAYERS,
        0 <= k < whole_uploads(layers, n).len(),
    ensures
        ({
            let upload = whole_uploads(layers, n)[k];
            upload.layer < n && upload.block is None && wholly(layers[upload.layer as int])
        }),
    decreases n,
{
    if n > 0 && k < whole_uploads(layers, n - 1).len() {
        lemma_whole_due(layers, n - 1, k);
    }
}

proof fn lemma_block_due(layers: Seq<LayerState>, id: u32, i: int, n: int, k: int)
    requires
        0 <= n <= LAYERS,
        0 <= k < block_uploads(layers, id, i, n).len(),
    ensures
        ({
            let upload = block_uploads(layers, id, i, n)[k];
            upload.layer < n && upload.block == Some(id) && upload.span
                == layers[upload.layer as int].spans[i]
        }),
    decreases n,
{
    if n > 0 && k < block_uploads(layers, id, i, n - 1).len() {
        lemma_block_due(layers, id, i, n - 1, k);
    }
}

proof fn lemma_dirty_due(state: RetainedState, n: int, k: int)
    requires
        0 <= n <= state.table.blocks.len(),
        0 <= k < dirty_uploads(state, n).len(),
    ensures
        is_due(state, dirty_uploads(state, n)[k]),
    decreases n,
{
    if n > 0 {
        let rest = dirty_uploads(state, n - 1);
        let all = dirty_uploads(state, n);
        if k < rest.len() {
            lemma_dirty_due(state, n - 1, k);
            assert(all[k] == rest[k]);
        } else {
            let id = state.table.blocks[n - 1].id;
            let own = block_uploads(state.layers, id, n - 1, LAYERS as int);
            lemma_block_due(state.layers, id, n - 1, LAYERS as int, k - rest.len());
            assert(all[k] == own[k - rest.len()]);
            assert(is_due_for(state, all[k], n - 1));
        }
    }
}

/// The draw calls are those of the visible blocks among the first `n`, in the order the
/// blocks were created and, for each, in the order of the layers: `at` says which block and
/// layer each is of.
#[verifier::opaque]
pub open spec fn draws_right(
    draws: Seq<Draw>,
    at: Seq<(int, int)>,
    state: RetainedState,
    n: int,
) -> bool {
    &&& at.len() == draws.len()
    &&& forall|k: int|
        0 <= k < at.len() ==> is_drawn(state, n, (#[trigger] at[k]).0, at[k].1) && draws[k].slot
            == state.table.blocks[at[k].0].slot && draws[k].layer == at[k].1 && draws[k].span
            == state.layers[at[k].1].spans[at[k].0]
    &&& forall|j: int, k: int|
        0 <= j < k < at.len() ==> drawn_before(#[trigger] at[j], #[trigger] at[k])
    &&& forall|i: int, l: int| #[trigger] is_drawn(state, n, i, l) ==> at.contains((i, l))
}

/// A block among the first `n` is visible and has instances on a layer that has a buffer.
pub open spec fn is_drawn(state: RetainedState, n: int, i: int, l: int) -> bool {
    &&& 0 <= i < n
    &&& 0 <= l < LAYERS
    &&& state.table.blocks[i].visible
    &&& state.layers[l].spans[i].len > 0
    &&& state.layers[l].arena.capacity > 0
}

/// Blocks are drawn one after the other, and each layer by layer.
pub open spec fn drawn_before(a: (int, int), b: (int, int)) -> bool {
    a.0 < b.0 || a.0 == b.0 && a.1 < b.1
}

#[verifier::spinoff_prover]
proof fn lemma_block_draws(state: RetainedState, i: int, n: int) -> (at: Seq<int>)
    requires
        0 <= n <= LAYERS,
        0 <= i < state.table.blocks.len(),
        state.table.blocks[i].visible,
    ensures
        ({
            let draws = block_draws(state.layers, state.table.blocks[i].slot, i, n);
            &&& at.len() == draws.len()
            &&& forall|k: int|
                0 <= k < at.len() ==> 0 <= #[trigger] at[k] < n && is_drawn(state, i + 1, i, at[k])
                    && draws[k].slot == state.table.blocks[i].slot && draws[k].layer == at[k]
                    && draws[k].span == state.layers[at[k]].spans[i]
            &&& forall|j: int, k: int| 0 <= j < k < at.len() ==> #[trigger] at[j] < #[trigger] at[k]
            &&& forall|l: int|
                0 <= l < n && #[trigger] is_drawn(state, i + 1, i, l) ==> at.contains(l)
        }),
    decreases n,
{
    if n <= 0 {
        Seq::empty()
    } else {
        let before = lemma_block_draws(state, i, n - 1);
        let l = n - 1;
        let slot = state.table.blocks[i].slot;
        let above = block_draws(state.layers, slot, i, l);
        let draws = block_draws(state.layers, slot, i, n);
        if is_drawn(state, i + 1, i, l) {
            let at = before.push(l);
            assert(draws == above.push(
                Draw { slot, layer: l as usize, span: state.layers[l].spans[i] },
            ));
            assert forall|k: int| 0 <= k < at.len() implies 0 <= #[trigger] at[k] < n && is_drawn(
                state,
                i + 1,
                i,
                at[k],
            ) && draws[k].slot == slot && draws[k].layer == at[k] && draws[k].span
                == state.layers[at[k]].spans[i] by {
                if k < before.len() {
                    assert(at[k] == before[k]);
                    assert(draws[k] == above[k]);
                }
            }
            assert forall|m: int| 0 <= m < n && #[trigger] is_drawn(
                state,
                i + 1,
                i,
                m,
            ) implies at.contains(m) by {
                if m < l {
                    assert(before.contains(m));
                    let k = choose|k: int| 0 <= k < before.len() && before[k] == m;
                    assert(at[k] == m);
                } else {
                    assert(at[before.len() as int] == m);
                }
            }
            at
        } else {
            assert(draws == above);
            assert forall|m: int| 0 <= m < n && #[trigger] is_drawn(
                state,
                i + 1,
                i,
                m,
            ) implies before.contains(m) by {
                assert(m < l);
            }
            before
        }
    }
}

#[verifier::spinoff_prover]
proof fn lemma_draws_so_far(state: RetainedState, n: int) -> (at: Seq<(int, int)>)
    requires
        0 <= n <= state.table.blocks.len(),
    ensures
        draws_right(draws_of(state, n), at, state, n),
    decreases n,
{
    reveal(draws_right);
    if n <= 0 {
        Seq::empty()
    } else {
        let before = lemma_draws_so_far(state, n - 1);
        let i = n - 1;
        let above = draws_of(state, i);
        if state.table.blocks[i].visible {
            let own = lemma_block_draws(state, i, LAYERS as int);
            let here = block_draws(state.layers, state.table.blocks[i].slot, i, LAYERS as int);
            let at = before + Seq::new(own.len(), |k: int| (i, own[k]));
            let all = draws_of(state, n);
            let m = before.len() as int;
            assert(all == above + here);
            assert forall|k: int| 0 <= k < at.len() implies is_drawn(
                state,
                n,
                (#[trigger] at[k]).0,
                at[k].1,
            ) && all[k].slot == state.table.blocks[at[k].0].slot && all[k].layer == at[k].1
                && all[k].span == state.layers[at[k].1].spans[at[k].0] by {
                if k < m {
                    assert(at[k] == before[k] && all[k] == above[k]);
                } else {
                    assert(at[k] == (i, own[k - m]) && all[k] == here[k - m]);
                }
            }
            assert forall|j: int, k: int| 0 <= j < k < at.len() implies drawn_before(
                #[trigger] at[j],
                #[trigger] at[k],
            ) by {
                if k < m {
                    assert(at[j] == before[j] && at[k] == before[k]);
                } else if j < m {
                    assert(at[j] == before[j]);
                    assert(is_drawn(state, i, before[j].0, before[j].1));
                } else {
                    assert(own[j - m] < own[k - m]);
                }
            }
            assert forall|b: int, l: int| #[trigger] is_drawn(state, n, b, l) implies at.contains(
                (b, l),
            ) by {
                if b < i {
                    assert(is_drawn(state, i, b, l));
                    assert(before.contains((b, l)));
                    let k = choose|k: int| 0 <= k < before.len() && before[k] == (b, l);
                    assert(at[k] == (b, l));
                } else {
                    assert(is_drawn(state, i + 1, i, l));
                    assert(own.contains(l));
                    let k = choose|k: int| 0 <= k < own.len() && own[k] == l;
                    assert(at[m + k] == (b, l));
                }
            }
            at
        } else {
            assert forall|b: int, l: int| #[trigger] is_drawn(
                state,
                n,
                b,
                l,
            ) implies before.contains((b, l)) by {
                assert(is_drawn(state, i, b, l));
            }
            assert forall|k: int| 0 <= k < before.len() implies is_drawn(
                state,
                n,
                (#[trigger] before[k]).0,
                before[k].1,
            ) by {
                assert(is_drawn(state, i, before[k].0, before[k].1));
            }
            before
        }
    }
}

/// What is drawn: every visible block, in the order the blocks were created, each layer by
/// layer, with the instances and the uniform that are its own; of a hidden block nothing.
pub proof fn lemma_draws(state: RetainedState)
    ensures
        exists|at: Seq<(int, int)>|
            #[trigger] draws_right(
                draws_of(state, state.table.blocks.len() as int),
                at,
                state,
                state.table.blocks.len() as int,
            ),
{
    let at = lemma_draws_so_far(state, state.table.blocks.len() as int);
}

/// The uniform of a block is to be written.
pub open spec fn uniform_due(blocks: Seq<BlockState>, all: bool, i: int) -> bool {
    all || blocks[i].uniform_dirty
}

/// The uniforms that are written are those of the blocks that changed, or of all blocks, in
/// their order, each to its own place and with its own offset: `at` says of which block.
#[verifier::opaque]
pub open spec fn uniforms_right(
    uploads: Seq<UniformUpload>,
    at: Seq<int>,
    blocks: Seq<BlockState>,
    all: bool,
    n: int,
) -> bool {
    &&& at.len() == uploads.len()
    &&& forall|k: int|
        0 <= k < at.len() ==> 0 <= #[trigger] at[k] < n && uniform_due(blocks, all, at[k])
            && uploads[k].slot == blocks[at[k]].slot && uploads[k].offset == blocks[at[k]].offset
    &&& forall|j: int, k: int| 0 <= j < k < at.len() ==> #[trigger] at[j] < #[trigger] at[k]
    &&& forall|i: int|
        0 <= i < n && #[trigger] uniform_due(blocks, all, i) ==> at.contains(i)
}

/// Every uniform that is due is written, once, and no other.
#[verifier::spinoff_prover]
pub proof fn lemma_uniforms(blocks: Seq<BlockState>, all: bool, n: int) -> (at: Seq<int>)
    requires
        0 <= n <= blocks.len(),
    ensures
        uniforms_right(uniform_uploads(blocks, all, n), at, blocks, all, n),
    decreases n,
{
    reveal(uniforms_right);
    if n <= 0 {
        Seq::empty()
    } else {
        let before = lemma_uniforms(blocks, all, n - 1);
        if all || blocks[n - 1].uniform_dirty {
            let at = before.push(n - 1);
            assert forall|i: int|
                0 <= i < n && #[trigger] uniform_due(blocks, all, i) implies at.contains(i) by {
                if i < n - 1 {
                    assert(before.contains(i));
                    let k = choose|k: int| 0 <= k < before.len() && before[k] == i;
                    assert(at[k] == i);
                } else {
                    assert(at[before.len() as int] == i);
                }
            }
            let uploads = uniform_uploads(blocks, all, n);
            assert forall|k: int| 0 <= k < at.len() implies 0 <= #[trigger] at[k] < n
                && uniform_due(blocks, all, at[k]) && uploads[k].slot == blocks[at[k]].slot
                && uploads[k].offset == blocks[at[k]].offset by {
                if k < before.len() {
                    assert(at[k] == before[k]);
                    assert(uploads[k] == uniform_uploads(blocks, all, n - 1)[k]);
                }
            }
            at
        } else {
            assert(uniform_uploads(blocks, all, n) == uniform_uploads(blocks, all, n - 1));
            assert forall|k: int| 0 <= k < before.len() implies 0 <= #[trigger] before[k] < n by {}
            assert forall|i: int|
                0 <= i < n && #[trigger] uniform_due(blocks, all, i) implies before.contains(
                i,
            ) by {
                assert(i < n - 1);
            }
            before
        }
    }
}

/// The count of instances is the sum of what the writes carry.
pub proof fn lemma_instances_add_up(a: Seq<ContentUpload>, upload: ContentUpload)
    ensures
        instances_in(a.push(upload)) == instances_in(a) + upload.span.len,
        instances_in(Seq::<ContentUpload>::empty()) == 0,
        0 <= instances_in(a),
        instances_in(a) <= u32::MAX ==> counted(instances_in(a)) == instances_in(a),
        instances_in(a) > u32::MAX ==> counted(instances_in(a)) == u32::MAX,
{
    lemma_instances_push(a, upload);
}

/// Putting content into a block marks it to be uploaded, unless there was and is nothing in
/// it, and remembers its glyphs where they are to be remembered; where the block is, and
/// whether it shows, stays.
pub proof fn lemma_commit_marks(state: RetainedState, i: int, staged: StagedState)
    requires
        state.valid(),
        0 <= i < state.table.blocks.len(),
    ensures
        ({
            let was = state.table.blocks[i];
            let now = state.committed(i, staged).table.blocks[i];
            let nothing = state.is_blank(i) && staged.is_empty();
            &&& now.id == was.id && now.slot == was.slot
            &&& now.offset == was.offset && now.visible == was.visible
            &&& now.uniform_dirty == was.uniform_dirty
            &&& now.stale == staged.stale
            &&& !nothing ==> now.content_dirty && state.committed(i, staged).damaged
            &&& nothing ==> state.committed(i, staged).layers == state.layers
                && now.content_dirty == was.content_dirty
            &&& !nothing && staged.collect_keys ==> now.curve_keys == staged.curve_keys
                && now.atlas_keys == staged.atlas_keys
            &&& !staged.collect_keys || nothing ==> now.curve_keys == was.curve_keys
                && now.atlas_keys == was.atlas_keys
        }),
{
}

/// Moving glyphs changes of an instance only the words that say where its glyph is and how
/// many curves it has.
pub proof fn lemma_relocation_keeps_the_rest(words: Seq<u32>, moves: Map<u32, u32>, k: int, part: int)
    requires
        0 <= k,
        0 <= part < 20,
        part != 12 && part != 13 && part != 19,
        20 * k + 20 <= words.len(),
    ensures
        relocated(words, moves).len() == words.len(),
        relocated(words, moves)[20 * k + part] == words[20 * k + part],
{
    assert((20 * k + part) % 20 == part);
}

/// A collapsed instance is nothing wide and nothing high, and otherwise as it was.
pub proof fn lemma_collapsed(words: Seq<u32>, k: int, part: int)
    requires
        0 <= k,
        0 <= part < 16,
        16 * k + 16 <= words.len(),
    ensures
        collapsed(words).len() == words.len(),
        part == 2 || part == 3 ==> collapsed(words)[16 * k + part] == 0,
        part != 2 && part != 3 ==> collapsed(words)[16 * k + part] == words[16 * k + part],
{
    assert((16 * k + part) % 16 == part);
}

/// A block that is created has nothing on any layer, and leaves what is in the others.
pub proof fn lemma_created_is_blank(state: RetainedState, l: int, k: int)
    requires
        state.valid(),
        0 <= l < LAYERS,
        0 <= k < state.table.blocks.len(),
    ensures
        state.created().damaged,
        state.created().content(l, k) == state.content(l, k),
        state.created().layers[l].spans.last().len == 0,
        state.created().layers[l].spans.len() == state.table.blocks.len() + 1,
        state.created().uniform_capacity == state.uniform_capacity,
{
    assert(state.layers[l].valid());
}

/// Those layers that outgrew their buffers get larger ones, each once, with the room that
/// they have from then on, and no others do.
#[verifier::spinoff_prover]
pub proof fn lemma_grown(before: Seq<LayerState>, after: Seq<LayerState>, n: int)
    requires
        0 <= n <= LAYERS,
    ensures
        ({
            let grown = grown_layers(before, after, n);
            &&& forall|k: int|
                0 <= k < grown.len() ==> (#[trigger] grown[k]).0 < n && outgrown(
                    before[grown[k].0 as int],
                ) && grown[k].1 == after[grown[k].0 as int].arena.capacity as u32
            &&& forall|j: int, k: int|
                0 <= j < k < grown.len() ==> (#[trigger] grown[j]).0 < (#[trigger] grown[k]).0
            &&& forall|l: int|
                0 <= l < n && outgrown(#[trigger] before[l]) ==> grown.contains(
                    (l as usize, after[l].arena.capacity as u32),
                )
        }),
    decreases n,
{
    if n > 0 {
        lemma_grown(before, after, n - 1);
        let was = grown_layers(before, after, n - 1);
        let grown = grown_layers(before, after, n);
        if outgrown(before[n - 1]) {
            assert forall|l: int| 0 <= l < n && outgrown(
                #[trigger] before[l],
            ) implies grown.contains((l as usize, after[l].arena.capacity as u32)) by {
                let pair = (l as usize, after[l].arena.capacity as u32);
                if l < n - 1 {
                    assert(was.contains(pair));
                    let k = choose|k: int| 0 <= k < was.len() && was[k] == pair;
                    assert(grown[k] == pair);
                } else {
                    assert(grown[was.len() as int] == pair);
                }
            }
        }
    }
}

/// Every instance on a layer has the words of its kind: rectangles eight, decorations
/// twelve, glyphs of curves twenty and those out of the atlas sixteen.
pub proof fn lemma_strides(l: int)
    requires
        0 <= l < LAYERS,
    ensures
        l == UNDER || l == OVER ==> stride_of(l) == 8,
        l == CHIPS || l == LINES ==> stride_of(l) == 12,
        l == VECTOR || l == BLEND ==> stride_of(l) == 20,
        l == ATLAS ==> stride_of(l) == 16,
{
}

/// Dropping a block keeps what is in every other one, takes its table entry along, and
/// counts as a change.
pub proof fn lemma_dropped_keeps_content(state: RetainedState, i: int, l: int, k: int)
    requires
        state.valid(),
        0 <= i < state.table.blocks.len(),
        0 <= l < LAYERS,
        0 <= k < state.table.blocks.len() - 1,
    ensures
        state.dropped(i).damaged,
        state.dropped(i).uniform_capacity == state.uniform_capacity,
        state.dropped(i).table == state.table.dropped(i),
        k < i ==> state.dropped(i).content(l, k) == state.content(l, k),
        k >= i ==> state.dropped(i).content(l, k) == state.content(l, k + 1),
{
    let layer = state.layers[l];
    assert(layer.valid());
    let from = if k < i {
        k
    } else {
        k + 1
    };
    layers::lemma_blocks_come_and_go(layer, i, from);
    let less = layer.without_block(i);
    layers::lemma_without_block_valid(layer, i);
    layers::lemma_packing_keeps_content(less);
}

} // verus!
