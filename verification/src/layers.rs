//! One draw layer of all blocks: an instance arena, and each block's span of it.
use crate::arena;
use crate::arena::{Arena, ArenaState, Span};
use vstd::prelude::*;

verus! {

/// What a [`Layer`] holds: an arena, and the span of every block.
#[verifier::ext_equal]
pub ghost struct LayerState {
    pub arena: ArenaState,
    pub spans: Seq<Span>,
}

impl LayerState {
    /// The spans are held by the arena, and no two share an instance.
    pub open spec fn valid(self) -> bool {
        &&& self.arena.valid()
        &&& 2 <= self.arena.stride
        &&& arena::all_disjoint(self.spans)
        &&& forall|i: int| 0 <= i < self.spans.len() ==> self.arena.holds(#[trigger] self.spans[i])
    }

    /// The words of a block's instances.
    pub open spec fn content(self, i: int) -> Seq<u32> {
        self.arena.content(self.spans[i])
    }

    /// Room is left for `len` more instances of a block.
    pub open spec fn has_room(self, len: int) -> bool {
        arena::planned_cap(len) <= u32::MAX && self.arena.has_room(arena::planned_cap(len))
    }

    /// The layer with one more block, which has nothing in it.
    pub open spec fn with_block(self) -> LayerState {
        LayerState { spans: self.spans.push(Span::none()), ..self }
    }

    /// The layer without a block.
    pub open spec fn without_block(self, i: int) -> LayerState {
        LayerState {
            arena: self.arena.released(self.spans[i]),
            spans: self.spans.remove(i),
        }
    }

    /// The layer with other instances in a block.
    pub open spec fn with_content(self, i: int, data: Seq<u32>) -> LayerState {
        let len = data.len() as int / self.arena.stride;
        let room = self.arena.allocated(self.spans[i], len);
        let span = self.arena.allocated_span(self.spans[i], len);
        LayerState {
            arena: arena::written(room, span, data),
            spans: self.spans.update(i, span),
        }
    }

    /// The layer with the blocks' instances right behind each other.
    pub open spec fn packed(self) -> LayerState {
        LayerState {
            arena: self.arena.repacked(self.arena.packed(self.spans)),
            spans: arena::moved_spans(self.spans),
        }
    }

    /// More of the arena is free than is worth keeping.
    pub open spec fn fragmented(self) -> bool {
        arena::REPACK_DEN * arena::total_cap(self.arena.holes) > arena::REPACK_NUM * self.arena.top
    }

    /// The layer, packed where it is fragmented.
    pub open spec fn tidied(self) -> LayerState {
        if self.fragmented() {
            self.packed()
        } else {
            self
        }
    }

    /// The layer with one word of a block's instances replaced.
    pub open spec fn patched(self, i: int, at: int, word: u32) -> LayerState {
        LayerState {
            arena: ArenaState {
                words: self.arena.words.update(
                    self.spans[i].start * self.arena.stride + at,
                    word,
                ),
                ..self.arena
            },
            ..self
        }
    }
}

/// A layer without blocks, whose buffer is still to be made.
pub open spec fn blank(stride: int) -> LayerState {
    LayerState {
        arena: ArenaState {
            stride,
            words: Seq::empty(),
            capacity: 0,
            top: 0,
            holes: Seq::empty(),
            full: false,
        },
        spans: Seq::empty(),
    }
}

/// The place of an element before the one at `i` was removed.
pub open spec fn skipping(i: int, k: int) -> int {
    if k < i {
        k
    } else {
        k + 1
    }
}

/// Other instances in a block leave every other block's where they are and as they are.
pub proof fn lemma_with_content(layer: LayerState, i: int, data: Seq<u32>)
    requires
        layer.valid(),
        0 <= i < layer.spans.len(),
        data.len() % (layer.arena.stride as nat) == 0,
        layer.has_room(data.len() as int / layer.arena.stride),
    ensures
        layer.with_content(i, data).valid(),
        layer.with_content(i, data).content(i) == data,
        layer.with_content(i, data).arena.stride == layer.arena.stride,
        layer.with_content(i, data).arena.capacity == layer.arena.capacity,
        layer.with_content(i, data).arena.full == layer.arena.full,
        forall|k: int|
            0 <= k < layer.spans.len() && k != i ==> #[trigger] layer.with_content(
                i,
                data,
            ).spans[k] == layer.spans[k] && layer.with_content(i, data).content(k)
                == layer.content(k),
{
    let len = data.len() as int / layer.arena.stride;
    let after = layer.with_content(i, data);
    let room = layer.arena.allocated(layer.spans[i], len);
    let span = layer.arena.allocated_span(layer.spans[i], len);
    lemma_instances(data.len() as int, layer.arena.stride);
    assert(layer.arena.holds(layer.spans[i]));
    arena::lemma_allocated(layer.arena, layer.spans[i], len);
    arena::lemma_written(room, span, data);
    assert forall|k: int| 0 <= k < after.spans.len() implies after.arena.holds(
        #[trigger] after.spans[k],
    ) && (k != i ==> after.content(k) == layer.content(k)) by {
        if k != i {
            assert(layer.arena.holds(layer.spans[k]));
            lemma_apart(layer, k, i);
            assert(room.holds(layer.spans[k]));
        } else {
            assert(room.holds(span));
        }
    }
    assert forall|a: int, b: int| 0 <= a < b < after.spans.len() implies (
    #[trigger] after.spans[a]).disjoint(#[trigger] after.spans[b]) by {
        assert(layer.arena.holds(layer.spans[a]));
        assert(layer.arena.holds(layer.spans[b]));
        lemma_apart(layer, a, b);
        lemma_apart(layer, b, a);
    }
}

/// Packing a layer keeps every block's instances.
pub proof fn lemma_packing_keeps_content(layer: LayerState)
    requires
        layer.valid(),
    ensures
        layer.packed().valid(),
        layer.packed().spans.len() == layer.spans.len(),
        forall|i: int|
            0 <= i < layer.spans.len() ==> #[trigger] layer.packed().content(i) == layer.content(i)
                && layer.packed().spans[i].len == layer.spans[i].len,
{
    arena::lemma_repack_keeps_content(layer.arena, layer.spans);
    let after = layer.packed();
    assert forall|i: int| 0 <= i < layer.spans.len() implies #[trigger] after.content(i)
        == layer.content(i) && after.spans[i].len == layer.spans[i].len by {
        assert(after.arena.holds(after.spans[i]));
    }
}

/// The capacities of a layer's spans and of its free list add up to all that its arena handed
/// out, and every operation keeps it so: adding a block, replacing its instances, removing
/// it, and packing the layer.
pub proof fn lemma_layer_keeps_accounts(layer: LayerState, i: int, data: Seq<u32>)
    requires
        layer.valid(),
        arena::accounts(layer.arena, layer.spans),
        0 <= i < layer.spans.len(),
        data.len() % (layer.arena.stride as nat) == 0,
        layer.has_room(data.len() as int / layer.arena.stride),
    ensures
        arena::accounts(layer.with_block().arena, layer.with_block().spans),
        arena::accounts(layer.without_block(i).arena, layer.without_block(i).spans),
        arena::accounts(layer.with_content(i, data).arena, layer.with_content(i, data).spans),
        arena::accounts(layer.packed().arena, layer.packed().spans),
        arena::accounts(layer.tidied().arena, layer.tidied().spans),
{
    let len = data.len() as int / layer.arena.stride;
    assert(0 <= len) by {
        vstd::arithmetic::div_mod::lemma_div_pos_is_pos(data.len() as int, layer.arena.stride);
    }
    let given = layer.spans.update(i, Span::none());
    arena::lemma_accounts_empty_span(layer.arena, layer.spans);
    arena::lemma_released(layer.arena, layer.spans[i]);
    arena::lemma_release_keeps_accounts(layer.arena, layer.spans, i);
    arena::lemma_accounts_without(layer.arena.released(layer.spans[i]), given, i);
    assert(given.remove(i) =~= layer.spans.remove(i));
    arena::lemma_allocation_keeps_accounts(layer.arena, layer.spans, i, len);
    let room = layer.arena.allocated(layer.spans[i], len);
    let after = layer.with_content(i, data);
    assert forall|k: int| 0 <= k < after.spans.len() implies after.arena.holds(
        #[trigger] after.spans[k],
    ) by {
        assert(room.holds(after.spans[k]));
    }
    arena::lemma_repack_accounts(layer.arena, layer.spans);
}

/// A layer without blocks keeps the accounts.
pub proof fn lemma_blank_layer_accounts(stride: int)
    ensures
        arena::accounts(blank(stride).arena, blank(stride).spans),
{
}

/// A draw layer.
pub struct Layer {
    arena: Arena,
    spans: Vec<Span>,
}

impl View for Layer {
    type V = LayerState;

    closed spec fn view(&self) -> LayerState {
        LayerState { arena: self.arena@, spans: self.spans@ }
    }
}

impl Layer {
    /// The arena's bookkeeping is right, and the state is valid.
    pub closed spec fn wf(&self) -> bool {
        self.arena.wf() && self@.valid()
    }

    /// The state is valid.
    pub proof fn lemma_valid(&self)
        requires
            self.wf(),
        ensures
            self@.valid(),
    {
    }

    /// A layer without blocks, for instances of `stride_bytes` bytes.
    pub fn new(stride_bytes: usize) -> (layer: Layer)
        requires
            stride_bytes % 4 == 0,
            8 <= stride_bytes,
            stride_bytes / 4 <= u32::MAX,
        ensures
            layer.wf(),
            layer@ == blank(stride_bytes as int / 4),
    {
        let layer = Layer { arena: Arena::new(stride_bytes), spans: Vec::new() };
        assert(layer@.spans =~= Seq::<Span>::empty());
        layer
    }

    /// The arena.
    pub fn arena(&self) -> (arena: &Arena)
        ensures
            arena@ == self@.arena,
            self.wf() ==> arena.wf(),
    {
        &self.arena
    }

    /// A block's span.
    pub fn span(&self, i: usize) -> (span: Span)
        requires
            i < self@.spans.len(),
        ensures
            span == self@.spans[i as int],
    {
        self.spans[i]
    }

    /// The words of a block's instances.
    pub fn content(&self, i: usize) -> (words: &[u32])
        requires
            self.wf(),
            i < self@.spans.len(),
        ensures
            words@ == self@.content(i as int),
    {
        self.arena.slice(self.spans[i])
    }

    /// Adds a block, which has nothing in it.
    pub fn push(&mut self)
        requires
            old(self).wf(),
        ensures
            final(self).wf(),
            final(self)@ == old(self)@.with_block(),
    {
        self.spans.push(Span::default());
        proof {
            let after = self@;
            assert forall|i: int| 0 <= i < after.spans.len() implies after.arena.holds(
                #[trigger] after.spans[i],
            ) by {
                if i < old(self)@.spans.len() {
                    assert(old(self)@.arena.holds(old(self)@.spans[i]));
                }
            }
        }
    }

    /// Removes a block and gives its span back.
    pub fn remove(&mut self, i: usize)
        requires
            old(self).wf(),
            i < old(self)@.spans.len(),
        ensures
            final(self).wf(),
            final(self)@ == old(self)@.without_block(i as int),
            forall|k: int|
                0 <= k < final(self)@.spans.len() ==> #[trigger] final(self)@.content(k)
                    == old(self)@.content(skipping(i as int, k)),
    {
        let ghost before = self@;
        let mut span: Span = self.spans.remove(i);
        proof {
            assert(before.arena.holds(before.spans[i as int]));
        }
        self.arena.release(&mut span);
        proof {
            let after = self@;
            assert(after.spans =~= before.spans.remove(i as int));
            assert forall|k: int| 0 <= k < after.spans.len() implies after.arena.holds(
                #[trigger] after.spans[k],
            ) && after.arena.content(after.spans[k]) == before.arena.content(after.spans[k]) by {
                let from = if k < i {
                    k
                } else {
                    k + 1
                };
                assert(after.spans[k] == before.spans[from]);
                assert(before.arena.holds(before.spans[from]));
                assert(before.spans[from].disjoint(before.spans[i as int])) by {
                    if from < i {
                        assert(before.spans[from].disjoint(before.spans[i as int]));
                    } else {
                        assert(before.spans[i as int].disjoint(before.spans[from]));
                    }
                }
            }
            assert forall|a: int, b: int| 0 <= a < b < after.spans.len() implies (
            #[trigger] after.spans[a]).disjoint(#[trigger] after.spans[b]) by {
                let x = if a < i {
                    a
                } else {
                    a + 1
                };
                let y = if b < i {
                    b
                } else {
                    b + 1
                };
                assert(before.spans[x].disjoint(before.spans[y]));
            }
            assert forall|k: int| 0 <= k < after.spans.len() implies #[trigger] after.content(k)
                == before.content(skipping(i as int, k)) by {
                assert(after.spans[k] == before.spans[skipping(i as int, k)]);
            }
        }
    }

    /// Whether there is room for instances of a block. `data` is their words.
    pub fn room_for(&self, data: &[u32]) -> (yes: bool)
        requires
            self.wf(),
        ensures
            yes == self@.has_room(data@.len() as int / self@.arena.stride),
    {
        let stride: usize = self.arena.stride() as usize;
        let len: usize = data.len() / stride;
        self.arena.has_room(len)
    }

    /// Replaces a block's instances. `data` is their words.
    pub fn set(&mut self, i: usize, data: &[u32])
        requires
            old(self).wf(),
            i < old(self)@.spans.len(),
            data@.len() % (old(self)@.arena.stride as nat) == 0,
            old(self)@.has_room(data@.len() as int / old(self)@.arena.stride),
        ensures
            final(self).wf(),
            final(self)@ == old(self)@.with_content(i as int, data@),
            final(self)@.content(i as int) == data@,
            final(self)@.spans[i as int].len == data@.len() as int / old(self)@.arena.stride,
            forall|k: int|
                0 <= k < old(self)@.spans.len() && k != i ==> #[trigger] final(self)@.content(k)
                    == old(self)@.content(k),
    {
        let ghost before = self@;
        let ghost count = data@.len() as int / before.arena.stride;
        proof {
            lemma_instances(data@.len() as int, before.arena.stride);
            assert(before.arena.holds(before.spans[i as int]));
        }
        let len: u32 = (data.len() / self.arena.stride() as usize) as u32;
        let mut span: Span = self.spans[i];
        self.arena.allocate(&mut span, len);
        let ghost middle = self.arena@;
        self.spans.set(i, span);
        self.arena.write(span, data);
        proof {
            let after = self@;
            self.arena.lemma_valid();
            assert(after == before.with_content(i as int, data@));
            assert forall|k: int| 0 <= k < after.spans.len() implies after.arena.holds(
                #[trigger] after.spans[k],
            ) by {
                if k != i {
                    assert(before.arena.holds(before.spans[k]));
                    lemma_apart(before, k, i as int);
                    assert(middle.holds(before.spans[k]));
                }
            }
            assert forall|a: int, b: int| 0 <= a < b < after.spans.len() implies (
            #[trigger] after.spans[a]).disjoint(#[trigger] after.spans[b]) by {
                assert(before.arena.holds(before.spans[a]));
                assert(before.arena.holds(before.spans[b]));
                lemma_apart(before, a, b);
                if a == i {
                    lemma_apart(before, b, a);
                }
            }
            assert forall|k: int| 0 <= k < before.spans.len() && k != i implies #[trigger]
                after.content(k) == before.content(k) by {
                assert(before.arena.holds(before.spans[k]));
                lemma_apart(before, k, i as int);
                assert(middle.holds(before.spans[k]));
            }
        }
    }

    /// Packs the blocks' instances right behind each other, where enough of the arena is
    /// free. The whole layer is to be uploaded again then.
    pub fn tidy(&mut self)
        requires
            old(self).wf(),
        ensures
            final(self).wf(),
            final(self)@ == old(self)@.tidied(),
            final(self)@.spans.len() == old(self)@.spans.len(),
            forall|k: int|
                0 <= k < old(self)@.spans.len() ==> #[trigger] final(self)@.content(k)
                    == old(self)@.content(k) && final(self)@.spans[k].len
                    == old(self)@.spans[k].len,
    {
        if !self.arena.is_fragmented() {
            return;
        }
        let ghost before = self@;
        proof {
            lemma_packing_keeps_content(before);
        }
        let mut packed: Vec<u32> = self.arena.repack_buffer();
        let mut moved: Vec<Span> = Vec::new();
        let mut i: usize = 0;
        proof {
            assert(before.spans.take(0) =~= Seq::empty());
            assert(packed@ =~= before.arena.packed(before.spans.take(0)));
        }
        while i < self.spans.len()
            invariant
                self.wf(),
                self@ == before,
                i <= before.spans.len(),
                moved@.len() == i,
                packed@ == before.arena.packed(before.spans.take(i as int)),
                packed@.len() % (before.arena.stride as nat) == 0,
                packed@.len() as int / before.arena.stride == arena::total_len(
                    before.spans.take(i as int),
                ),
                forall|k: int|
                    0 <= k < i ==> #[trigger] moved@[k] == arena::moved_spans(before.spans)[k],
            decreases before.spans.len() - i,
        {
            proof {
                assert(before.spans.take(i + 1).drop_last() =~= before.spans.take(i as int));
                assert(before.arena.holds(before.spans[i as int]));
                lemma_packed_fits(before, i as int);
            }
            let to: Span = self.arena.repack_span(&mut packed, self.spans[i]);
            moved.push(to);
            i = i + 1;
        }
        proof {
            assert(before.spans.take(i as int) =~= before.spans);
            lemma_packed_fits(before, before.spans.len() as int);
        }
        self.arena.repack_finish(packed);
        self.spans = moved;
        proof {
            assert(self@.spans =~= before.packed().spans);
            assert(self@ == before.packed());
        }
    }

    /// Replaces one word of a block's instances.
    pub fn patch(&mut self, i: usize, at: usize, word: u32)
        requires
            old(self).wf(),
            i < old(self)@.spans.len(),
            at < old(self)@.spans[i as int].len * old(self)@.arena.stride,
        ensures
            final(self).wf(),
            final(self)@ == old(self)@.patched(i as int, at as int, word),
            final(self)@.content(i as int) == old(self)@.content(i as int).update(at as int, word),
            forall|k: int|
                0 <= k < old(self)@.spans.len() && k != i ==> #[trigger] final(self)@.content(k)
                    == old(self)@.content(k),
    {
        let ghost before = self@;
        proof {
            assert(before.arena.holds(before.spans[i as int]));
        }
        self.arena.patch(self.spans[i], at, word);
        proof {
            let after = self@;
            self.arena.lemma_valid();
            assert forall|k: int| 0 <= k < after.spans.len() implies after.arena.holds(
                #[trigger] after.spans[k],
            ) by {
                assert(before.arena.holds(before.spans[k]));
            }
            assert forall|k: int| 0 <= k < before.spans.len() && k != i implies #[trigger]
                after.content(k) == before.content(k) by {
                assert(before.arena.holds(before.spans[k]));
                lemma_apart(before, k, i as int);
                lemma_word_outside(before, k, i as int, at as int);
                arena::lemma_content_len(before.arena, before.spans[k]);
                arena::lemma_content_len(before.arena, before.spans[i as int]);
                let span = before.spans[i as int];
                let stride = before.arena.stride;
                assert((span.start + span.len) * stride == span.start * stride + span.len * stride)
                    by (nonlinear_arith);
                assert(after.content(k) =~= before.content(k));
            }
        }
    }

    /// Makes sure that the buffer holds the layer: the number of instances to make a new
    /// one for, where the present one does not.
    pub fn reserve(&mut self) -> (room: Option<u32>)
        requires
            old(self).wf(),
        ensures
            final(self).wf(),
            old(self)@.arena.top == 0 || old(self)@.arena.top <= old(self)@.arena.capacity
                ==> room is None && final(self)@ == old(self)@,
            0 < old(self)@.arena.top && old(self)@.arena.capacity < old(self)@.arena.top ==> {
                &&& room is Some
                &&& arena::is_power_of_two(room->0 as int)
                &&& old(self)@.arena.top <= room->0 < 2 * old(self)@.arena.top
                &&& final(self)@ == (LayerState {
                    arena: ArenaState {
                        capacity: room->0 as int,
                        full: true,
                        ..old(self)@.arena
                    },
                    ..old(self)@
                })
            },
    {
        proof {
            let top = self@.arena.top;
            let stride = self@.arena.stride;
            assert(2 * top <= top * stride) by (nonlinear_arith)
                requires
                    2 <= stride,
                    0 <= top,
            ;
        }
        let ghost before = self@;
        let room: Option<u32> = self.arena.reserve();
        proof {
            assert forall|k: int| 0 <= k < self@.spans.len() implies self@.arena.holds(
                #[trigger] self@.spans[k],
            ) by {
                assert(before.arena.holds(before.spans[k]));
            }
        }
        room
    }

    /// Settles an upload of the whole layer, and says how many instances it writes.
    pub fn upload_all(&mut self) -> (written: u32)
        requires
            old(self).wf(),
        ensures
            final(self).wf(),
            final(self)@ == (LayerState {
                arena: ArenaState { full: false, ..old(self)@.arena },
                ..old(self)@
            }),
            written == (if old(self)@.arena.capacity > 0 {
                old(self)@.arena.top
            } else {
                0
            }),
    {
        let ghost before = self@;
        let written: u32 = self.arena.upload_all();
        proof {
            assert forall|k: int| 0 <= k < self@.spans.len() implies self@.arena.holds(
                #[trigger] self@.spans[k],
            ) by {
                assert(before.arena.holds(before.spans[k]));
            }
        }
        written
    }
}

proof fn lemma_apart(layer: LayerState, a: int, b: int)
    requires
        layer.valid(),
        0 <= a < layer.spans.len(),
        0 <= b < layer.spans.len(),
        a != b,
    ensures
        layer.spans[a].disjoint(layer.spans[b]),
{
    if a < b {
        assert(layer.spans[a].disjoint(layer.spans[b]));
    } else {
        assert(layer.spans[b].disjoint(layer.spans[a]));
    }
}

proof fn lemma_instances(words: int, stride: int)
    requires
        0 <= words,
        0 < stride,
        words % stride == 0,
    ensures
        words == (words / stride) * stride,
        0 <= words / stride,
{
    vstd::arithmetic::div_mod::lemma_fundamental_div_mod(words, stride);
    vstd::arithmetic::mul::lemma_mul_is_commutative(stride, words / stride);
    vstd::arithmetic::div_mod::lemma_div_pos_is_pos(words, stride);
}

proof fn lemma_word_outside(layer: LayerState, k: int, i: int, at: int)
    requires
        layer.valid(),
        0 <= k < layer.spans.len(),
        0 <= i < layer.spans.len(),
        k != i,
        0 <= at < layer.spans[i].len * layer.arena.stride,
    ensures
        ({
            let word = layer.spans[i].start * layer.arena.stride + at;
            let from = layer.spans[k].start * layer.arena.stride;
            let to = (layer.spans[k].start + layer.spans[k].len) * layer.arena.stride;
            word < from || to <= word || from == to
        }),
{
    lemma_apart(layer, k, i);
    let a = layer.spans[k];
    let b = layer.spans[i];
    let stride = layer.arena.stride;
    assert(layer.arena.holds(a) && layer.arena.holds(b));
    assert((b.start + b.len) * stride == b.start * stride + b.len * stride) by (nonlinear_arith);
    if a.len > 0 {
        assert(b.len > 0) by {
            assert(b.len == 0 ==> b.len * stride == 0) by (nonlinear_arith);
        }
        if a.end() <= b.start {
            assert((a.start + a.len) * stride <= b.start * stride) by (nonlinear_arith)
                requires
                    a.start + a.len <= b.start,
                    0 < stride,
            ;
        } else {
            assert((b.start + b.len) * stride <= a.start * stride) by (nonlinear_arith)
                requires
                    b.start + b.len <= a.start,
                    0 < stride,
            ;
        }
    } else {
        assert((a.start + a.len) * stride == a.start * stride) by (nonlinear_arith)
            requires
                a.len == 0,
        ;
    }
}

proof fn lemma_packed_fits(layer: LayerState, n: int)
    requires
        layer.valid(),
        0 <= n <= layer.spans.len(),
    ensures
        layer.arena.packed(layer.spans.take(n)).len() <= layer.arena.words.len(),
        n < layer.spans.len() ==> layer.arena.packed(layer.spans.take(n)).len()
            + layer.spans[n].len * layer.arena.stride <= layer.arena.words.len(),
        layer.arena.words.len() <= u32::MAX,
{
    let part = layer.spans.take(n);
    assert forall|i: int| 0 <= i < part.len() implies layer.arena.holds(#[trigger] part[i]) by {
        assert(layer.arena.holds(layer.spans[i]));
    }
    arena::lemma_packed_len(layer.arena, part);
    if n < layer.spans.len() {
        let more = layer.spans.take(n + 1);
        assert(more.drop_last() =~= part);
        assert forall|i: int| 0 <= i < more.len() implies layer.arena.holds(#[trigger] more[i]) by {
            assert(layer.arena.holds(layer.spans[i]));
        }
        arena::lemma_packed_len(layer.arena, more);
        let stride = layer.arena.stride;
        let before = arena::total_len(part);
        assert((before + layer.spans[n].len) * stride == before * stride + layer.spans[n].len
            * stride) by (nonlinear_arith);
    }
}

/// A layer is packed exactly where more than half of what its arena handed out is free. It
/// then has no free room, only the blocks' instances one behind the other, and is to be
/// uploaded as a whole; otherwise it stays as it is.
pub proof fn lemma_tidying(layer: LayerState)
    requires
        layer.valid(),
    ensures
        2 * arena::total_cap(layer.arena.holes) <= layer.arena.top ==> layer.tidied() == layer,
        2 * arena::total_cap(layer.arena.holes) > layer.arena.top ==> {
            let after = layer.tidied();
            &&& after.arena.holes.len() == 0
            &&& after.arena.full
            &&& after.arena.capacity == layer.arena.capacity
            &&& after.arena.stride == layer.arena.stride
            &&& after.spans.len() == layer.spans.len()
            &&& forall|i: int|
                0 <= i < layer.spans.len() ==> #[trigger] after.content(i) == layer.content(i)
                    && after.spans[i].len == layer.spans[i].len && after.spans[i].cap
                    == layer.spans[i].len
        },
{
    lemma_packing_keeps_content(layer);
}

/// A new block has nothing in it, and a block that is removed takes its own instances along
/// and no others.
#[verifier::spinoff_prover]
pub proof fn lemma_blocks_come_and_go(layer: LayerState, i: int, k: int)
    requires
        layer.valid(),
        0 <= i < layer.spans.len(),
        0 <= k < layer.spans.len(),
    ensures
        layer.with_block().spans.len() == layer.spans.len() + 1,
        layer.with_block().spans.last().len == 0,
        layer.with_block().content(k) == layer.content(k),
        layer.without_block(i).spans.len() == layer.spans.len() - 1,
        k < i ==> layer.without_block(i).content(k) == layer.content(k),
        k > i ==> layer.without_block(i).content(k - 1) == layer.content(k),
{
    arena::lemma_released(layer.arena, layer.spans[i]);
    if k != i {
        lemma_apart(layer, i, k);
        lemma_apart(layer, k, i);
        assert(layer.arena.holds(layer.spans[k]));
    }
}

/// A layer without one of its blocks is valid.
pub proof fn lemma_without_block_valid(layer: LayerState, i: int)
    requires
        layer.valid(),
        0 <= i < layer.spans.len(),
    ensures
        layer.without_block(i).valid(),
{
    arena::lemma_released(layer.arena, layer.spans[i]);
    let after = layer.without_block(i);
    assert forall|k: int| 0 <= k < after.spans.len() implies after.arena.holds(
        #[trigger] after.spans[k],
    ) by {
        let from = skipping(i, k);
        assert(after.spans[k] == layer.spans[from]);
        lemma_apart(layer, from, i);
        assert(layer.arena.holds(layer.spans[from]));
    }
    assert forall|a: int, b: int| 0 <= a < b < after.spans.len() implies (
    #[trigger] after.spans[a]).disjoint(#[trigger] after.spans[b]) by {
        assert(after.spans[a] == layer.spans[skipping(i, a)]);
        assert(after.spans[b] == layer.spans[skipping(i, b)]);
        lemma_apart(layer, skipping(i, a), skipping(i, b));
    }
}

} // verus!
