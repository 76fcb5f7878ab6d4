//! What the instance buffers hold: that an upload of what changed leaves them in step with
//! the retained content.
//!
//! A buffer is modelled as the words in it. What is stated here rests on the planned
//! writes being made.
use crate::arena;
use crate::arena::Span;
use crate::layers;
use crate::layers::LayerState;
use crate::retained;
use crate::retained::{ContentUpload, RetainedState, StagedState, LAYERS};
use vstd::prelude::*;

verus! {

/// The first word of a span's instances.
pub open spec fn word_from(layer: LayerState, span: Span) -> int {
    span.start * layer.arena.stride
}

/// The word behind a span's instances.
pub open spec fn word_to(layer: LayerState, span: Span) -> int {
    (span.start + span.len) * layer.arena.stride
}

/// A buffer once a span's instances were written to it.
pub open spec fn after_write(buffer: Seq<u32>, layer: LayerState, span: Span) -> Seq<u32> {
    Seq::new(
        buffer.len(),
        |w: int|
            if word_from(layer, span) <= w < word_to(layer, span) {
                layer.arena.words[w]
            } else {
                buffer[w]
            },
    )
}

/// A layer's buffer once all writes to it were made.
pub open spec fn after_writes(
    buffer: Seq<u32>,
    layer: LayerState,
    l: int,
    uploads: Seq<ContentUpload>,
) -> Seq<u32>
    decreases uploads.len(),
{
    if uploads.len() == 0 {
        buffer
    } else {
        let before = after_writes(buffer, layer, l, uploads.drop_last());
        if uploads.last().layer == l {
            after_write(before, layer, uploads.last().span)
        } else {
            before
        }
    }
}

/// The buffer holds a block's instances.
pub open spec fn mirrors(buffer: Seq<u32>, layer: LayerState, i: int) -> bool {
    forall|w: int|
        word_from(layer, layer.spans[i]) <= w < word_to(layer, layer.spans[i])
            ==> #[trigger] buffer[w] == layer.arena.words[w]
}

/// The buffer is as large as the layer's room, and holds the instances of every block that
/// did not change, unless the whole layer is to be written anyway.
pub open spec fn in_step(buffer: Seq<u32>, state: RetainedState, l: int) -> bool {
    let layer = state.layers[l];
    &&& buffer.len() == layer.arena.capacity * layer.arena.stride
    &&& !retained::wholly(layer) ==> forall|i: int|
        0 <= i < state.table.blocks.len() && !(#[trigger] state.table.blocks[i]).content_dirty
            ==> mirrors(buffer, layer, i)
}

proof fn lemma_writes_len(buffer: Seq<u32>, layer: LayerState, l: int, uploads: Seq<ContentUpload>)
    ensures
        after_writes(buffer, layer, l, uploads).len() == buffer.len(),
    decreases uploads.len(),
{
    if uploads.len() > 0 {
        lemma_writes_len(buffer, layer, l, uploads.drop_last());
    }
}

proof fn lemma_writes_keep(
    buffer: Seq<u32>,
    layer: LayerState,
    l: int,
    uploads: Seq<ContentUpload>,
    w: int,
)
    requires
        0 <= w < buffer.len(),
        buffer[w] == layer.arena.words[w],
    ensures
        after_writes(buffer, layer, l, uploads)[w] == layer.arena.words[w],
    decreases uploads.len(),
{
    if uploads.len() > 0 {
        lemma_writes_len(buffer, layer, l, uploads.drop_last());
        lemma_writes_keep(buffer, layer, l, uploads.drop_last(), w);
    }
}

proof fn lemma_writes_reach(
    buffer: Seq<u32>,
    layer: LayerState,
    l: int,
    uploads: Seq<ContentUpload>,
    k: int,
    w: int,
)
    requires
        0 <= k < uploads.len(),
        uploads[k].layer == l,
        word_from(layer, uploads[k].span) <= w < word_to(layer, uploads[k].span),
        0 <= w < buffer.len(),
    ensures
        after_writes(buffer, layer, l, uploads)[w] == layer.arena.words[w],
    decreases uploads.len(),
{
    let init = uploads.drop_last();
    lemma_writes_len(buffer, layer, l, init);
    if k < init.len() {
        assert(init[k] == uploads[k]);
        lemma_writes_reach(buffer, layer, l, init, k, w);
    }
}

proof fn lemma_whole_listed(layers: Seq<LayerState>, n: int, l: int) -> (k: int)
    requires
        0 <= l < n <= LAYERS,
        retained::wholly(layers[l]),
    ensures
        0 <= k < retained::whole_uploads(layers, n).len(),
        retained::whole_uploads(layers, n)[k].layer == l,
        retained::whole_uploads(layers, n)[k].span.start == 0,
        retained::whole_uploads(layers, n)[k].span.len == layers[l].arena.top as u32,
    decreases n,
{
    if l == n - 1 {
        retained::whole_uploads(layers, n).len() - 1
    } else {
        lemma_whole_listed(layers, n - 1, l)
    }
}

proof fn lemma_block_listed(layers: Seq<LayerState>, id: u32, i: int, n: int, l: int) -> (k: int)
    requires
        0 <= l < n <= LAYERS,
        !retained::wholly(layers[l]),
        layers[l].spans[i].len > 0,
    ensures
        0 <= k < retained::block_uploads(layers, id, i, n).len(),
        retained::block_uploads(layers, id, i, n)[k].layer == l,
        retained::block_uploads(layers, id, i, n)[k].span == layers[l].spans[i],
    decreases n,
{
    if l == n - 1 {
        retained::block_uploads(layers, id, i, n).len() - 1
    } else {
        lemma_block_listed(layers, id, i, n - 1, l)
    }
}

proof fn lemma_dirty_listed(state: RetainedState, n: int, i: int, l: int) -> (k: int)
    requires
        0 <= i < n <= state.table.blocks.len(),
        0 <= l < LAYERS,
        state.table.blocks[i].content_dirty,
        !retained::wholly(state.layers[l]),
        state.layers[l].spans[i].len > 0,
    ensures
        0 <= k < retained::dirty_uploads(state, n).len(),
        retained::dirty_uploads(state, n)[k].layer == l,
        retained::dirty_uploads(state, n)[k].span == state.layers[l].spans[i],
    decreases n,
{
    if i == n - 1 {
        let id = state.table.blocks[i].id;
        let own = lemma_block_listed(state.layers, id, i, LAYERS as int, l);
        retained::dirty_uploads(state, n - 1).len() + own
    } else {
        let k = lemma_dirty_listed(state, n - 1, i, l);
        assert(retained::dirty_uploads(state, n)[k] == retained::dirty_uploads(state, n - 1)[k]);
        k
    }
}

/// Once everything that is due was written, the buffers hold the instances of every block.
/// A layer that outgrew its buffer is written to a new one, whatever that holds at first.
pub proof fn lemma_uploads_bring_in_step(
    state: RetainedState,
    after: RetainedState,
    buffer: Seq<u32>,
    l: int,
    i: int,
)
    requires
        state.valid(),
        0 <= l < LAYERS,
        0 <= i < state.table.blocks.len(),
        retained::settled(state.layers[l], after.layers[l]),
        buffer.len() == after.layers[l].arena.capacity * after.layers[l].arena.stride,
        retained::wholly(state.layers[l]) || in_step(buffer, state, l),
    ensures
        mirrors(
            after_writes(buffer, state.layers[l], l, retained::content_uploads(state)),
            after.layers[l],
            i,
        ),
{
    let layer = state.layers[l];
    assert(layer.valid());
    let uploads = retained::content_uploads(state);
    let whole = retained::whole_uploads(state.layers, LAYERS as int);
    let dirty = retained::dirty_uploads(state, state.table.blocks.len() as int);
    let result = after_writes(buffer, layer, l, uploads);
    let span = layer.spans[i];
    assert(layer.arena.holds(span));
    arena::lemma_content_len(layer.arena, span);
    let top = layer.arena.top;
    let room = after.layers[l].arena.capacity;
    let stride = layer.arena.stride;
    assert(top <= room) by {
        if !retained::outgrown(layer) {
            assert(top == 0 || top <= layer.arena.capacity);
        }
    }
    assert(top * stride <= room * stride) by (nonlinear_arith)
        requires
            top <= room,
            0 <= stride,
    ;
    assert forall|w: int|
        word_from(after.layers[l], span) <= w < word_to(after.layers[l], span) implies
        #[trigger] result[w] == after.layers[l].arena.words[w] by {
        assert(0 <= w < buffer.len());
        if retained::wholly(layer) {
            let k = lemma_whole_listed(state.layers, LAYERS as int, l);
            assert(uploads[k] == whole[k]);
            assert((0 + top) * stride == top * stride && 0 * stride == 0) by (nonlinear_arith);
            lemma_writes_reach(buffer, layer, l, uploads, k, w);
        } else if state.table.blocks[i].content_dirty {
            assert(span.len > 0) by {
                assert(span.len == 0 ==> (span.start + span.len) * stride == span.start * stride)
                    by (nonlinear_arith);
            }
            let k = lemma_dirty_listed(state, state.table.blocks.len() as int, i, l);
            assert(uploads[whole.len() + k] == dirty[k]);
            lemma_writes_reach(buffer, layer, l, uploads, whole.len() + k, w);
        } else {
            assert(mirrors(buffer, layer, i));
            lemma_writes_keep(buffer, layer, l, uploads, w);
        }
    }
}

/// Putting content into a block leaves the buffers in step: the other blocks' instances
/// are where they were, or the whole layer is to be written.
pub proof fn lemma_commit_stays_in_step(
    state: RetainedState,
    i: int,
    staged: StagedState,
    buffer: Seq<u32>,
    l: int,
)
    requires
        state.valid(),
        staged.valid(),
        state.has_room(staged),
        0 <= i < state.table.blocks.len(),
        0 <= l < LAYERS,
        in_step(buffer, state, l),
    ensures
        in_step(buffer, state.committed(i, staged), l),
{
    let after = state.committed(i, staged);
    let layer = state.layers[l];
    assert(layer.valid());
    assert(staged.layers[l].len() % (retained::stride_of(l) as nat) == 0);
    let middle = layer.with_content(i, staged.layers[l]);
    layers::lemma_with_content(layer, i, staged.layers[l]);
    if !(state.is_blank(i) && staged.is_empty()) && !retained::wholly(after.layers[l]) {
        assert(after.layers[l] == middle.tidied());
        assert(after.layers[l] == middle);
        assert(middle.arena.top >= layer.arena.top || middle.arena.full);
        assert(!retained::wholly(layer)) by {
            lemma_top_grows(layer, i, staged.layers[l]);
        }
        assert forall|k: int|
            0 <= k < after.table.blocks.len()
                && !(#[trigger] after.table.blocks[k]).content_dirty implies mirrors(
            buffer,
            after.layers[l],
            k,
        ) by {
            assert(k != i);
            assert(after.table.blocks[k] == state.table.blocks[k]);
            assert(mirrors(buffer, layer, k));
            assert(middle.spans[k] == layer.spans[k]);
            lemma_same_words(layer, middle, k);
        }
    }
}

proof fn lemma_top_grows(layer: LayerState, i: int, data: Seq<u32>)
    requires
        layer.valid(),
    ensures
        layer.with_content(i, data).arena.top >= layer.arena.top || data.len() as int
            / layer.arena.stride < 0,
        layer.with_content(i, data).arena.capacity == layer.arena.capacity,
        layer.with_content(i, data).arena.full == layer.arena.full,
{
    let len = data.len() as int / layer.arena.stride;
    if len >= 0 {
        assert(0 <= arena::planned_cap(len));
    }
}

proof fn lemma_same_words(before: LayerState, after: LayerState, k: int)
    requires
        before.valid(),
        after.valid(),
        0 <= k < before.spans.len(),
        after.spans.len() == before.spans.len(),
        after.arena.stride == before.arena.stride,
        after.spans[k] == before.spans[k],
        after.content(k) == before.content(k),
    ensures
        forall|w: int|
            word_from(before, before.spans[k]) <= w < word_to(before, before.spans[k])
                ==> #[trigger] after.arena.words[w] == before.arena.words[w],
        forall|buffer: Seq<u32>|
            mirrors(buffer, before, k) ==> #[trigger] mirrors(buffer, after, k),
{
    let span = before.spans[k];
    assert(before.arena.holds(span) && after.arena.holds(after.spans[k]));
    arena::lemma_content_len(before.arena, span);
    arena::lemma_content_len(after.arena, after.spans[k]);
    assert forall|w: int| word_from(before, span) <= w < word_to(before, span) implies
        #[trigger] after.arena.words[w] == before.arena.words[w] by {
        let at = w - word_from(before, span);
        assert(before.content(k)[at] == before.arena.words[w]);
        assert(after.content(k)[at] == after.arena.words[w]);
    }
}

/// A new block leaves the buffers in step.
pub proof fn lemma_create_stays_in_step(state: RetainedState, buffer: Seq<u32>, l: int)
    requires
        state.valid(),
        0 <= l < LAYERS,
        in_step(buffer, state, l),
    ensures
        in_step(buffer, state.created(), l),
{
    let after = state.created();
    let layer = state.layers[l];
    assert(layer.valid());
    assert(after.layers[l] == layer.with_block());
    if !retained::wholly(layer) {
        assert forall|k: int|
            0 <= k < after.table.blocks.len()
                && !(#[trigger] after.table.blocks[k]).content_dirty implies mirrors(
            buffer,
            after.layers[l],
            k,
        ) by {
            if k < state.table.blocks.len() {
                assert(after.table.blocks[k] == state.table.blocks[k]);
                assert(mirrors(buffer, layer, k));
                assert(after.layers[l].spans[k] == layer.spans[k]);
                assert(mirrors(buffer, after.layers[l], k));
            } else {
                assert(after.layers[l].spans[k] == Span::none());
                assert((0 + 0) * layer.arena.stride == 0 * layer.arena.stride) by (nonlinear_arith);
            }
        }
    }
}

/// Dropping a block leaves the buffers in step.
pub proof fn lemma_drop_stays_in_step(state: RetainedState, i: int, buffer: Seq<u32>, l: int)
    requires
        state.valid(),
        0 <= i < state.table.blocks.len(),
        0 <= l < LAYERS,
        in_step(buffer, state, l),
    ensures
        in_step(buffer, state.dropped(i), l),
{
    let after = state.dropped(i);
    let layer = state.layers[l];
    assert(layer.valid());
    let middle = layer.without_block(i);
    assert(after.layers[l] == middle.tidied());
    if !retained::wholly(after.layers[l]) {
        assert(after.layers[l] == middle);
        assert forall|k: int|
            0 <= k < after.table.blocks.len()
                && !(#[trigger] after.table.blocks[k]).content_dirty implies mirrors(
            buffer,
            after.layers[l],
            k,
        ) by {
            let from = layers::skipping(i, k);
            assert(after.table.blocks[k] == state.table.blocks[from]);
            assert(mirrors(buffer, layer, from));
            assert(middle.spans[k] == layer.spans[from]);
            assert(mirrors(buffer, middle, k));
        }
    }
}

/// Moved glyphs leave the buffers in step.
pub proof fn lemma_relocation_stays_in_step(
    state: RetainedState,
    moves: Map<u32, u32>,
    after: RetainedState,
    buffer: Seq<u32>,
    l: int,
)
    requires
        state.valid(),
        after.valid(),
        retained::relocates(state, moves, after),
        0 <= l < LAYERS,
        in_step(buffer, state, l),
    ensures
        in_step(buffer, after, l),
{
    let layer = state.layers[l];
    assert(layer.valid());
    assert(after.layers[l].valid());
    assert(retained::same_shape(layer, after.layers[l]));
    if !retained::wholly(after.layers[l]) {
        assert forall|k: int|
            0 <= k < after.table.blocks.len()
                && !(#[trigger] after.table.blocks[k]).content_dirty implies mirrors(
            buffer,
            after.layers[l],
            k,
        ) by {
            assert(!state.table.blocks[k].content_dirty);
            assert(mirrors(buffer, layer, k));
            lemma_edited_stays(buffer, state, after, l, k);
        }
    }
}

/// Void places in the atlas leave the buffers in step.
pub proof fn lemma_blanking_stays_in_step(
    state: RetainedState,
    after: RetainedState,
    buffer: Seq<u32>,
    l: int,
)
    requires
        state.valid(),
        after.valid(),
        retained::blanks(state, after),
        0 <= l < LAYERS,
        in_step(buffer, state, l),
    ensures
        in_step(buffer, after, l),
{
    let layer = state.layers[l];
    assert(layer.valid());
    assert(after.layers[l].valid());
    assert(retained::same_shape(layer, after.layers[l]));
    if !retained::wholly(after.layers[l]) {
        assert forall|k: int|
            0 <= k < after.table.blocks.len()
                && !(#[trigger] after.table.blocks[k]).content_dirty implies mirrors(
            buffer,
            after.layers[l],
            k,
        ) by {
            assert(!state.table.blocks[k].content_dirty);
            assert(mirrors(buffer, layer, k));
            lemma_edited_stays(buffer, state, after, l, k);
        }
    }
}

proof fn lemma_edited_stays(
    buffer: Seq<u32>,
    state: RetainedState,
    after: RetainedState,
    l: int,
    k: int,
)
    requires
        state.valid(),
        after.valid(),
        0 <= l < LAYERS,
        0 <= k < state.table.blocks.len(),
        retained::same_shape(state.layers[l], after.layers[l]),
        after.content(l, k) == state.content(l, k) || state.layers[l].spans[k].len == 0,
        mirrors(buffer, state.layers[l], k),
    ensures
        mirrors(buffer, after.layers[l], k),
{
    assert(state.layers[l].valid() && after.layers[l].valid());
    if state.layers[l].spans[k].len == 0 {
        let span = state.layers[l].spans[k];
        let stride = state.layers[l].arena.stride;
        assert((span.start + span.len) * stride == span.start * stride) by (nonlinear_arith)
            requires
                span.len == 0,
        ;
    } else {
        lemma_same_words(state.layers[l], after.layers[l], k);
    }
}

} // verus!
