//! What holds from frame to frame: what an idle frame uploads, what a change costs, and
//! which glyphs stay.
//!
//! Everything here is stated of the renderer's states and proved from what its calls
//! promise; there is nothing to run.

use crate::bits;
use crate::blocks::{BlockState, TableState};
use crate::curves;
use crate::curves::{GlyphKey, StoreState};
use crate::layers::LayerState;
use crate::renderer;
use crate::renderer::{Frame, RendererState};
use crate::retained;
use crate::retained::{RetainedState, StagedState, UniformUpload, UploadStats, LAYERS};
use vstd::prelude::*;

verus! {

/// No uniform and no instance is to be uploaded.
pub open spec fn clean(state: RetainedState) -> bool {
    &&& state.table.slot_top <= state.uniform_capacity
    &&& forall|i: int|
        0 <= i < state.table.blocks.len() ==> !(#[trigger] state.table.blocks[i]).content_dirty
            && !state.table.blocks[i].uniform_dirty
    &&& state.layers.len() == LAYERS
    &&& forall|l: int| 0 <= l < LAYERS ==> !retained::wholly(#[trigger] state.layers[l])
}

/// Nothing at all is to be uploaded, and the immediate-mode calls have not drawn.
pub open spec fn quiet(state: RendererState) -> bool {
    &&& clean(state.retained)
    &&& !state.transient_pending
    &&& !state.globals_dirty
    &&& state.curves.uploaded == state.curves.data.len()
    &&& state.curves_generation == state.curves.generation
}

/// Finishing a frame settles everything: nothing is left to be uploaded, and nothing counts
/// as changed.
pub proof fn lemma_finish_settles(
    before: RendererState,
    screen_size: (u32, u32),
    frame: Frame,
    after: RendererState,
)
    requires
        before.curves.valid(),
        renderer::finishes(before, screen_size, frame, after),
    ensures
        quiet(after),
        !after.retained.damaged,
{
    let start = renderer::after_transient(before);
    let middle = choose|middle: RetainedState| #[trigger]
        renderer::uploads_settled(start, frame, middle, after.retained);
    assert forall|l: int| 0 <= l < LAYERS implies !retained::wholly(
        #[trigger] after.retained.layers[l],
    ) by {
        assert(retained::settled(middle.layers[l], after.retained.layers[l]));
    }
}

proof fn lemma_no_uniforms(blocks: Seq<BlockState>, n: int)
    requires
        0 <= n <= blocks.len(),
        forall|i: int| 0 <= i < n ==> !(#[trigger] blocks[i]).uniform_dirty,
    ensures
        retained::uniform_uploads(blocks, false, n) == Seq::<UniformUpload>::empty(),
    decreases n,
{
    if n > 0 {
        lemma_no_uniforms(blocks, n - 1);
    }
}

proof fn lemma_none_grown(before: Seq<LayerState>, after: Seq<LayerState>, n: int)
    requires
        0 <= n <= before.len(),
        forall|l: int| 0 <= l < n ==> !retained::wholly(#[trigger] before[l]),
    ensures
        retained::grown_layers(before, after, n).len() == 0,
    decreases n,
{
    if n > 0 {
        lemma_none_grown(before, after, n - 1);
    }
}

/// An idle frame uploads nothing: where nothing is to be uploaded and the screen size stays,
/// finishing the frame hands over no write of any kind, and the counts say so.
pub proof fn lemma_idle_frame_uploads_nothing(
    before: RendererState,
    frame: Frame,
    after: RendererState,
)
    requires
        quiet(before),
        before.retained.valid(),
        !bits::is_nan(before.screen_size.0),
        !bits::is_nan(before.screen_size.1),
        renderer::finishes(before, before.screen_size, frame, after),
    ensures
        frame.globals is None,
        frame.rows is None,
        !frame.rebind,
        frame.uniforms.grown is None,
        frame.uniforms.uploads@.len() == 0,
        frame.content.grown@.len() == 0,
        frame.content.uploads@.len() == 0,
        after.uploads == (UploadStats { content_writes: 0, instances: 0, uniform_writes: 0 }),
{
    let start = before.retained;
    let blocks = start.table.blocks;
    let middle = choose|middle: RetainedState| #[trigger]
        renderer::uploads_settled(start, frame, middle, after.retained);
    assert(middle.table.blocks =~= blocks);
    assert(middle.valid()) by {
        assert(middle.layers == start.layers);
        assert(middle.table == TableState { blocks, ..start.table });
    }
    retained::lemma_idle_uploads_nothing(middle);
    lemma_no_uniforms(blocks, blocks.len() as int);
    lemma_none_grown(middle.layers, after.retained.layers, LAYERS as int);
}

/// Going on to the next frame changes no retained content, and brings on no upload, unless a
/// glyph store is to evict.
pub proof fn lemma_next_frame_stays_quiet(before: RendererState, after: RendererState)
    requires
        quiet(before),
        renderer::frame_begins(before, after),
        !before.curves.needs_compact,
        !before.atlas.needs_reset,
        before.curves_layout == before.curves.layout_generation,
        before.atlas_generation == before.atlas.generation,
    ensures
        quiet(after),
        after.retained == before.retained,
{
    let frame = (before.frame + 1) as u64;
    let blocks = before.retained.table.blocks;
    renderer::lemma_curves_in_use_rest(before.curves, blocks, blocks.len() as int, frame);
    renderer::lemma_atlas_in_use_rest(before.atlas, blocks, blocks.len() as int, frame);
}

/// Showing or hiding a block brings on no upload.
pub proof fn lemma_showing_stays_clean(state: RetainedState, i: int, visible: bool)
    requires
        clean(state),
        0 <= i < state.table.blocks.len(),
    ensures
        clean(renderer::shown(state, i, visible)),
{
    let after = renderer::shown(state, i, visible);
    assert forall|k: int| 0 <= k < after.table.blocks.len() implies !(
    #[trigger] after.table.blocks[k]).content_dirty && !after.table.blocks[k].uniform_dirty by {
        assert(!state.table.blocks[k].content_dirty && !state.table.blocks[k].uniform_dirty);
    }
}

proof fn lemma_one_uniform(blocks: Seq<BlockState>, i: int, n: int)
    requires
        0 <= i < n <= blocks.len(),
        forall|k: int| 0 <= k < n ==> ((#[trigger] blocks[k]).uniform_dirty <==> k == i),
    ensures
        retained::uniform_uploads(blocks, false, n) == seq![
            UniformUpload { slot: blocks[i].slot, offset: blocks[i].offset },
        ],
    decreases n,
{
    if n - 1 > i {
        lemma_one_uniform(blocks, i, n - 1);
    } else {
        lemma_no_uniforms(blocks, i);
        assert(retained::uniform_uploads(blocks, false, n) =~= seq![
            UniformUpload { slot: blocks[i].slot, offset: blocks[i].offset },
        ]);
    }
}

/// Moving a block uploads its uniform and nothing else: no instance is touched.
pub proof fn lemma_moving_uploads_one_uniform(
    state: RendererState,
    i: int,
    offset: (u32, u32),
    screen_size: (u32, u32),
    frame: Frame,
    after: RendererState,
)
    requires
        quiet(state),
        state.retained.valid(),
        0 <= i < state.retained.table.blocks.len(),
        renderer::moved(state.retained, i, offset) != state.retained,
        renderer::finishes(
            RendererState { retained: renderer::moved(state.retained, i, offset), ..state },
            screen_size,
            frame,
            after,
        ),
    ensures
        frame.uniforms.grown is None,
        frame.uniforms.uploads@ == seq![
            UniformUpload { slot: state.retained.table.blocks[i].slot, offset },
        ],
        frame.content.uploads@.len() == 0,
        frame.rows is None,
{
    let start = renderer::moved(state.retained, i, offset);
    let blocks = start.table.blocks;
    let middle = choose|middle: RetainedState| #[trigger]
        renderer::uploads_settled(start, frame, middle, after.retained);
    assert forall|k: int| 0 <= k < blocks.len() implies ((#[trigger] blocks[k]).uniform_dirty
        <==> k == i) by {
        assert(!state.retained.table.blocks[k].uniform_dirty);
    }
    lemma_one_uniform(blocks, i, blocks.len() as int);
    assert forall|k: int| 0 <= k < middle.table.blocks.len() implies !(
    #[trigger] middle.table.blocks[k]).content_dirty by {
        assert(!state.retained.table.blocks[k].content_dirty);
    }
    assert(middle.layers == state.retained.layers);
    lemma_nothing_due(middle);
}

proof fn lemma_nothing_due(state: RetainedState)
    requires
        state.layers.len() == LAYERS,
        forall|l: int| 0 <= l < LAYERS ==> !retained::wholly(#[trigger] state.layers[l]),
        forall|i: int|
            0 <= i < state.table.blocks.len() ==> !(#[trigger] state.table.blocks[i]).content_dirty,
    ensures
        retained::content_uploads(state).len() == 0,
{
    retained::lemma_no_whole(state.layers, LAYERS as int);
    retained::lemma_no_dirty(state, state.table.blocks.len() as int);
}

/// Setting a block's content uploads that block's instances and no other's, unless a layer
/// is written as a whole because it was packed or outgrew its buffer.
pub proof fn lemma_content_uploads_own_spans(
    state: RetainedState,
    i: int,
    staged: StagedState,
    k: int,
)
    requires
        clean(state),
        0 <= i < state.table.blocks.len(),
        state.committed(i, staged).valid(),
        0 <= k < retained::content_uploads(state.committed(i, staged)).len(),
    ensures
        ({
            let after = state.committed(i, staged);
            let upload = retained::content_uploads(after)[k];
            let layer = after.layers[upload.layer as int];
            &&& upload.layer < LAYERS
            &&& upload.block is None ==> retained::wholly(layer)
            &&& upload.block is Some ==> upload.block == Some(state.table.blocks[i].id)
                && upload.span == layer.spans[i]
        }),
{
    let after = state.committed(i, staged);
    let upload = retained::content_uploads(after)[k];
    retained::lemma_writes_are_due(after, k);
    if upload.block is Some {
        let at = choose|at: int| retained::is_due_for(after, upload, at);
        if at != i {
            assert(!state.table.blocks[at].content_dirty);
        }
    }
}

/// No glyph was drawn later than on a frame.
pub open spec fn drawn_by(store: StoreState, frame: u64) -> bool {
    forall|key: u128| #[trigger]
        store.entries.contains_key(key) ==> store.entries[key].last_used <= frame
}

proof fn lemma_touching_keeps(store: StoreState, keys: Seq<GlyphKey>, n: int, frame: u64)
    requires
        0 <= n <= keys.len(),
        store.valid(),
        drawn_by(store, frame),
    ensures
        renderer::curves_touched(store, keys, n, frame).valid(),
        drawn_by(renderer::curves_touched(store, keys, n, frame), frame),
    decreases n,
{
    if n > 0 {
        lemma_touching_keeps(store, keys, n - 1, frame);
        curves::lemma_touched(
            renderer::curves_touched(store, keys, n - 1, frame),
            keys[n - 1].number() as u128,
            frame,
        );
    }
}

proof fn lemma_use_keeps(store: StoreState, blocks: Seq<BlockState>, n: int, frame: u64)
    requires
        0 <= n <= blocks.len(),
        store.valid(),
        drawn_by(store, frame),
    ensures
        renderer::curves_in_use(store, blocks, n, frame).valid(),
        drawn_by(renderer::curves_in_use(store, blocks, n, frame), frame),
    decreases n,
{
    if n > 0 {
        lemma_use_keeps(store, blocks, n - 1, frame);
        lemma_touching_keeps(
            renderer::curves_in_use(store, blocks, n - 1, frame),
            blocks[n - 1].curve_keys,
            blocks[n - 1].curve_keys.len() as int,
            frame,
        );
    }
}

/// A glyph that a block's instances refer to is never evicted at the start of a frame, and
/// its curves come through half for half, as long as the glyphs of all blocks are no more
/// than a compaction keeps.
pub proof fn lemma_retained_glyphs_survive(
    store: StoreState,
    blocks: Seq<BlockState>,
    frame: u64,
    after: StoreState,
    i: int,
    k: int,
)
    requires
        store.valid(),
        drawn_by(store, frame),
        0 <= i < blocks.len(),
        0 <= k < blocks[i].curve_keys.len(),
        store.entries.contains_key(blocks[i].curve_keys[k].number() as u128),
        ({
            let used = renderer::curves_in_use(store, blocks, blocks.len() as int, frame);
            let stored = used.entries.dom().len();
            &&& curves::stamped(used.entries, frame).len() <= stored - stored / 2
            &&& renderer::curves_begin(used, frame, after)
        }),
    ensures
        ({
            let key = blocks[i].curve_keys[k].number() as u128;
            &&& after.entries.contains_key(key)
            &&& store.has_block(key) ==> after.has_block(key) && after.block_of(key)
                == store.block_of(key)
        }),
{
    let key = blocks[i].curve_keys[k].number() as u128;
    let n = blocks.len() as int;
    let used = renderer::curves_in_use(store, blocks, n, frame);
    let begun = StoreState { frame, ..used };
    lemma_use_keeps(store, blocks, n, frame);
    renderer::lemma_curves_in_use_rest(store, blocks, n, frame);
    renderer::lemma_retained_glyphs_in_use(store, blocks, n, frame, i, k);
    if used.needs_compact {
        let order = choose|order: Seq<u128>| #[trigger]
            used.survivors(order) && begun.compacted(order, after);
        curves::lemma_stamped_survive(used, order, frame, key);
        assert(begun.survivors(order));
        assert(begun.valid()) by {
            assert(forall|a: u128| #[trigger] begun.has_block(a) ==> used.has_block(a));
        }
        curves::lemma_compaction_keeps_blocks(begun, order, after);
        assert(after.entries.dom().contains(key));
        if store.has_block(key) {
            assert(begun.has_block(key));
        }
    }
}

} // verus!
