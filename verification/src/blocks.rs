//! Retained blocks: who is there, in which order they are drawn, and where their uniforms
//! are.
use crate::atlas::AtlasKey;
use crate::curves::GlyphKey;
use vstd::prelude::*;

verus! {

/// Handle to a retained block of content. Blocks are drawn in the order they were created.
#[derive(Clone, Copy, Debug, PartialEq, Eq, Structural, Hash)]
pub struct BlockId(u32);

impl BlockId {
    /// The number of the handle.
    pub closed spec fn spec_number(self) -> u32 {
        self.0
    }

    pub(crate) fn new(number: u32) -> (id: BlockId)
        ensures
            id.spec_number() == number,
    {
        BlockId(number)
    }

    /// The number of the handle.
    #[verifier::when_used_as_spec(spec_number)]
    pub fn number(self) -> (number: u32)
        ensures
            number == self.spec_number(),
    {
        self.0
    }
}

/// A retained block, but for its instances.
pub struct Block {
    /// The number of its handle.
    pub id: u32,
    /// Where it is placed, as bit patterns.
    pub offset: (u32, u32),
    pub visible: bool,
    /// The place of its uniform in the uniform buffer.
    pub slot: u32,
    /// Its instances are to be uploaded.
    pub content_dirty: bool,
    /// Its uniform is to be uploaded.
    pub uniform_dirty: bool,
    /// A glyph of it could not be drawn, or was evicted since.
    pub stale: bool,
    /// The glyphs that its instances refer to, without repeats.
    pub curve_keys: Vec<GlyphKey>,
    pub atlas_keys: Vec<AtlasKey>,
}

/// What a [`Block`] holds.
#[verifier::ext_equal]
pub ghost struct BlockState {
    pub id: u32,
    pub offset: (u32, u32),
    pub visible: bool,
    pub slot: u32,
    pub content_dirty: bool,
    pub uniform_dirty: bool,
    pub stale: bool,
    pub curve_keys: Seq<GlyphKey>,
    pub atlas_keys: Seq<AtlasKey>,
}

impl View for Block {
    type V = BlockState;

    open spec fn view(&self) -> BlockState {
        BlockState {
            id: self.id,
            offset: self.offset,
            visible: self.visible,
            slot: self.slot,
            content_dirty: self.content_dirty,
            uniform_dirty: self.uniform_dirty,
            stale: self.stale,
            curve_keys: self.curve_keys@,
            atlas_keys: self.atlas_keys@,
        }
    }
}

/// A new block: at the origin, visible, with nothing in it. What its place in the uniform
/// buffer holds is open until it is written.
pub open spec fn fresh(id: u32, slot: u32) -> BlockState {
    BlockState {
        id,
        offset: (0, 0),
        visible: true,
        slot,
        content_dirty: false,
        uniform_dirty: true,
        stale: false,
        curve_keys: Seq::empty(),
        atlas_keys: Seq::empty(),
    }
}

/// What a [`BlockTable`] holds.
#[verifier::ext_equal]
pub ghost struct TableState {
    /// The blocks, in the order they were created.
    pub blocks: Seq<BlockState>,
    pub next_id: int,
    /// Uniform places that were given back.
    pub free_slots: Seq<u32>,
    /// Uniform places from here on were never handed out.
    pub slot_top: int,
}

impl TableState {
    /// Handles ascend, and every uniform place that was handed out belongs to one block or
    /// to the free list.
    pub open spec fn valid(self) -> bool {
        &&& 0 <= self.next_id <= u32::MAX
        &&& 0 <= self.slot_top <= u32::MAX
        &&& forall|i: int| 0 <= i < self.blocks.len() ==> (#[trigger] self.blocks[i]).id < self.next_id
        &&& forall|i: int, j: int|
            0 <= i < j < self.blocks.len() ==> (#[trigger] self.blocks[i]).id < (
            #[trigger] self.blocks[j]).id
        &&& forall|i: int|
            0 <= i < self.blocks.len() ==> (#[trigger] self.blocks[i]).slot < self.slot_top
        &&& forall|i: int, j: int|
            0 <= i < j < self.blocks.len() ==> (#[trigger] self.blocks[i]).slot != (
            #[trigger] self.blocks[j]).slot
        &&& forall|i: int|
            0 <= i < self.free_slots.len() ==> #[trigger] self.free_slots[i] < self.slot_top
        &&& self.free_slots.no_duplicates()
        &&& forall|i: int, k: int|
            0 <= i < self.blocks.len() && 0 <= k < self.free_slots.len() ==> (
            #[trigger] self.blocks[i]).slot != #[trigger] self.free_slots[k]
    }

    /// The block at a place is the one with the handle.
    pub open spec fn is_at(self, id: u32, i: int) -> bool {
        0 <= i < self.blocks.len() && self.blocks[i].id == id
    }

    /// There is a block with the handle.
    pub open spec fn has_block(self, id: u32) -> bool {
        exists|i: int| self.is_at(id, i)
    }

    /// The uniform place that the next block gets.
    pub open spec fn next_slot(self) -> u32 {
        if self.free_slots.len() > 0 {
            self.free_slots.last()
        } else {
            self.slot_top as u32
        }
    }

    /// The table with one more block.
    pub open spec fn created(self) -> TableState {
        TableState {
            blocks: self.blocks.push(fresh(self.next_id as u32, self.next_slot())),
            next_id: self.next_id + 1,
            free_slots: if self.free_slots.len() > 0 {
                self.free_slots.drop_last()
            } else {
                self.free_slots
            },
            slot_top: if self.free_slots.len() > 0 {
                self.slot_top
            } else {
                self.slot_top + 1
            },
        }
    }

    /// The table without a block.
    pub open spec fn dropped(self, i: int) -> TableState {
        TableState {
            blocks: self.blocks.remove(i),
            free_slots: self.free_slots.push(self.blocks[i].slot),
            ..self
        }
    }

    /// The table with another block in a place.
    pub open spec fn with(self, i: int, block: BlockState) -> TableState {
        TableState { blocks: self.blocks.update(i, block), ..self }
    }
}

/// No two blocks share a uniform place, and none is in the free list.
pub proof fn lemma_slots_apart(table: TableState, i: int, j: int)
    requires
        table.valid(),
        0 <= i < table.blocks.len(),
        0 <= j < table.blocks.len(),
        i != j,
    ensures
        table.blocks[i].slot != table.blocks[j].slot,
        !table.free_slots.contains(table.blocks[i].slot),
{
    if j < i {
        assert(table.blocks[j].slot != table.blocks[i].slot);
    }
    if table.free_slots.contains(table.blocks[i].slot) {
        let k = choose|k: int|
            0 <= k < table.free_slots.len() && table.free_slots[k] == table.blocks[i].slot;
        assert(table.blocks[i].slot != table.free_slots[k]);
    }
}

/// A handle names at most one block.
pub proof fn lemma_one_block(table: TableState, id: u32, i: int, j: int)
    requires
        table.valid(),
        table.is_at(id, i),
        table.is_at(id, j),
    ensures
        i == j,
{
    if i < j {
        assert(table.blocks[i].id < table.blocks[j].id);
    } else if j < i {
        assert(table.blocks[j].id < table.blocks[i].id);
    }
}

/// The retained blocks.
pub struct BlockTable {
    blocks: Vec<Block>,
    next_id: u32,
    free_slots: Vec<u32>,
    slot_top: u32,
}

impl View for BlockTable {
    type V = TableState;

    closed spec fn view(&self) -> TableState {
        TableState {
            blocks: Seq::new(self.blocks@.len(), |i: int| self.blocks@[i]@),
            next_id: self.next_id as int,
            free_slots: self.free_slots@,
            slot_top: self.slot_top as int,
        }
    }
}

impl BlockTable {
    /// The state is valid.
    pub open spec fn wf(&self) -> bool {
        self@.valid()
    }

    /// No blocks.
    pub fn new() -> (table: BlockTable)
        ensures
            table.wf(),
            table@ == (TableState {
                blocks: Seq::empty(),
                next_id: 0,
                free_slots: Seq::empty(),
                slot_top: 0,
            }),
    {
        let table = BlockTable {
            blocks: Vec::new(),
            next_id: 0,
            free_slots: Vec::new(),
            slot_top: 0,
        };
        assert(table@ =~= TableState {
            blocks: Seq::empty(),
            next_id: 0,
            free_slots: Seq::empty(),
            slot_top: 0,
        });
        table
    }

    /// The number of blocks.
    pub fn len(&self) -> (n: usize)
        ensures
            n == self@.blocks.len(),
    {
        self.blocks.len()
    }

    /// Uniform places from here on were never handed out.
    pub fn slot_top(&self) -> (top: u32)
        ensures
            top == self@.slot_top,
    {
        self.slot_top
    }

    /// Whether another block can be created: a handle is left for it.
    pub fn has_room(&self) -> (yes: bool)
        ensures
            yes == (self@.next_id < u32::MAX && self@.slot_top < u32::MAX),
    {
        self.next_id < u32::MAX && self.slot_top < u32::MAX
    }

    /// A block, by its place.
    pub fn at(&self, i: usize) -> (block: &Block)
        requires
            i < self@.blocks.len(),
        ensures
            block@ == self@.blocks[i as int],
    {
        &self.blocks[i]
    }

    /// Creates an empty block, behind all others.
    pub fn create(&mut self) -> (id: u32)
        requires
            old(self).wf(),
            old(self)@.next_id < u32::MAX,
            old(self)@.slot_top < u32::MAX,
        ensures
            final(self).wf(),
            id == old(self)@.next_id,
            final(self)@ == old(self)@.created(),
    {
        let ghost before = self@;
        let slot: u32 = match self.free_slots.pop() {
            Some(slot) => slot,
            None => {
                self.slot_top = self.slot_top + 1;
                self.slot_top - 1
            },
        };
        let id: u32 = self.next_id;
        self.next_id = self.next_id + 1;
        let block = Block {
            id,
            offset: (0, 0),
            visible: true,
            slot,
            content_dirty: false,
            uniform_dirty: true,
            stale: false,
            curve_keys: Vec::new(),
            atlas_keys: Vec::new(),
        };
        self.blocks.push(block);
        proof {
            let after = self@;
            assert(block@ =~= fresh(id, slot));
            assert(after =~= before.created());
            assert forall|i: int| 0 <= i < before.blocks.len() implies #[trigger] after.blocks[i]
                == before.blocks[i] && before.blocks[i].slot != slot by {
                if before.free_slots.len() > 0 {
                    assert(before.blocks[i].slot != before.free_slots[before.free_slots.len() - 1]);
                }
            }
            assert forall|i: int, k: int|
                0 <= i < after.blocks.len() && 0 <= k < after.free_slots.len() implies (
            #[trigger] after.blocks[i]).slot != #[trigger] after.free_slots[k] by {
                assert(after.free_slots[k] == before.free_slots[k]);
                if i < before.blocks.len() {
                    assert(before.blocks[i].slot != before.free_slots[k]);
                }
            }
        }
        id
    }

    /// The place of the block with a handle.
    pub fn find(&self, id: u32) -> (place: Option<usize>)
        requires
            self.wf(),
        ensures
            match place {
                Some(i) => self@.is_at(id, i as int),
                None => !self@.has_block(id),
            },
    {
        let mut lo: usize = 0;
        let mut hi: usize = self.blocks.len();
        while lo < hi
            invariant
                self.wf(),
                lo <= hi <= self.blocks@.len(),
                forall|k: int| 0 <= k < lo ==> (#[trigger] self@.blocks[k]).id < id,
                forall|k: int| hi <= k < self.blocks@.len() ==> (#[trigger] self@.blocks[k]).id > id,
            decreases hi - lo,
        {
            let mid: usize = lo + (hi - lo) / 2;
            let at: u32 = self.blocks[mid].id;
            assert(at == self@.blocks[mid as int].id);
            if at < id {
                lo = mid + 1;
            } else if at > id {
                hi = mid;
            } else {
                return Some(mid);
            }
        }
        None
    }

    /// Drops a block, and takes its uniform place back.
    pub fn remove(&mut self, i: usize)
        requires
            old(self).wf(),
            i < old(self)@.blocks.len(),
        ensures
            final(self).wf(),
            final(self)@ == old(self)@.dropped(i as int),
    {
        let ghost before = self@;
        let block: Block = self.blocks.remove(i);
        self.free_slots.push(block.slot);
        proof {
            let after = self@;
            let slot = before.blocks[i as int].slot;
            assert(after =~= before.dropped(i as int));
            assert forall|k: int| 0 <= k < after.blocks.len() implies #[trigger] after.blocks[k]
                == before.blocks[if k < i {
                k
            } else {
                k + 1
            }] && after.blocks[k].slot != slot by {
                lemma_slots_apart(
                    before,
                    if k < i {
                        k
                    } else {
                        k + 1
                    },
                    i as int,
                );
            }
            assert(after.free_slots.no_duplicates()) by {
                assert forall|a: int, b: int|
                    0 <= a < b < after.free_slots.len() implies after.free_slots[a]
                    != after.free_slots[b] by {
                    if b == before.free_slots.len() {
                        assert(before.blocks[i as int].slot != before.free_slots[a]);
                    }
                }
            }
            assert forall|a: int, b: int| 0 <= a < b < after.blocks.len() implies (
            #[trigger] after.blocks[a]).slot != (#[trigger] after.blocks[b]).slot
                && after.blocks[a].id < after.blocks[b].id by {
                let x = if a < i {
                    a
                } else {
                    a + 1
                };
                let y = if b < i {
                    b
                } else {
                    b + 1
                };
                assert(before.blocks[x].id < before.blocks[y].id);
                assert(before.blocks[x].slot != before.blocks[y].slot);
            }
            assert forall|a: int, k: int|
                0 <= a < after.blocks.len() && 0 <= k < after.free_slots.len() implies (
            #[trigger] after.blocks[a]).slot != #[trigger] after.free_slots[k] by {
                if k < before.free_slots.len() {
                    assert(after.free_slots[k] == before.free_slots[k]);
                    let x = if a < i {
                        a
                    } else {
                        a + 1
                    };
                    assert(before.blocks[x].slot != before.free_slots[k]);
                }
            }
        }
    }

    /// Moves a block.
    pub fn set_offset(&mut self, i: usize, offset: (u32, u32))
        requires
            old(self).wf(),
            i < old(self)@.blocks.len(),
        ensures
            final(self).wf(),
            final(self)@ == old(self)@.with(
                i as int,
                BlockState {
                    offset,
                    uniform_dirty: true,
                    ..old(self)@.blocks[i as int]
                },
            ),
    {
        let ghost before = self@;
        self.blocks[i].offset = offset;
        self.blocks[i].uniform_dirty = true;
        proof {
            lemma_edited(before, self@, i as int);
        }
    }

    /// Shows or hides a block.
    pub fn set_visible(&mut self, i: usize, visible: bool)
        requires
            old(self).wf(),
            i < old(self)@.blocks.len(),
        ensures
            final(self).wf(),
            final(self)@ == old(self)@.with(
                i as int,
                BlockState {
                    visible,
                    ..old(self)@.blocks[i as int]
                },
            ),
    {
        let ghost before = self@;
        self.blocks[i].visible = visible;
        proof {
            lemma_edited(before, self@, i as int);
        }
    }

    /// Says whether a block's uniform is to be uploaded.
    pub fn set_uniform_dirty(&mut self, i: usize, uniform_dirty: bool)
        requires
            old(self).wf(),
            i < old(self)@.blocks.len(),
        ensures
            final(self).wf(),
            final(self)@ == old(self)@.with(
                i as int,
                BlockState {
                    uniform_dirty,
                    ..old(self)@.blocks[i as int]
                },
            ),
    {
        let ghost before = self@;
        self.blocks[i].uniform_dirty = uniform_dirty;
        proof {
            lemma_edited(before, self@, i as int);
        }
    }

    /// Says whether a block's instances are to be uploaded.
    pub fn set_content_dirty(&mut self, i: usize, content_dirty: bool)
        requires
            old(self).wf(),
            i < old(self)@.blocks.len(),
        ensures
            final(self).wf(),
            final(self)@ == old(self)@.with(
                i as int,
                BlockState {
                    content_dirty,
                    ..old(self)@.blocks[i as int]
                },
            ),
    {
        let ghost before = self@;
        self.blocks[i].content_dirty = content_dirty;
        proof {
            lemma_edited(before, self@, i as int);
        }
    }

    /// Says whether a block lacks a glyph.
    pub fn set_stale(&mut self, i: usize, stale: bool)
        requires
            old(self).wf(),
            i < old(self)@.blocks.len(),
        ensures
            final(self).wf(),
            final(self)@ == old(self)@.with(
                i as int,
                BlockState {
                    stale,
                    ..old(self)@.blocks[i as int]
                },
            ),
    {
        let ghost before = self@;
        self.blocks[i].stale = stale;
        proof {
            lemma_edited(before, self@, i as int);
        }
    }

    /// Replaces the glyphs that a block refers to.
    pub fn set_keys(&mut self, i: usize, curve_keys: Vec<GlyphKey>, atlas_keys: Vec<AtlasKey>)
        requires
            old(self).wf(),
            i < old(self)@.blocks.len(),
        ensures
            final(self).wf(),
            final(self)@ == old(self)@.with(
                i as int,
                BlockState {
                    curve_keys: curve_keys@,
                    atlas_keys: atlas_keys@,
                    ..old(self)@.blocks[i as int]
                },
            ),
    {
        let ghost before = self@;
        self.blocks[i].curve_keys = curve_keys;
        self.blocks[i].atlas_keys = atlas_keys;
        proof {
            lemma_edited(before, self@, i as int);
        }
    }
}

proof fn lemma_edited(before: TableState, after: TableState, i: int)
    requires
        before.valid(),
        0 <= i < before.blocks.len() == after.blocks.len(),
        after.next_id == before.next_id,
        after.free_slots == before.free_slots,
        after.slot_top == before.slot_top,
        forall|k: int|
            0 <= k < before.blocks.len() && k != i ==> #[trigger] after.blocks[k]
                == before.blocks[k],
        after.blocks[i].id == before.blocks[i].id,
        after.blocks[i].slot == before.blocks[i].slot,
    ensures
        after.valid(),
        after == before.with(i, after.blocks[i]),
{
    assert forall|k: int| 0 <= k < after.blocks.len() implies (#[trigger] after.blocks[k]).id
        == before.blocks[k].id && after.blocks[k].slot == before.blocks[k].slot by {}
    assert(after =~= before.with(i, after.blocks[i]));
}

/// A new block is drawn over all others, at the origin and visible, with nothing in it;
/// every other block stays as it was. Its handle is one that no block has or had, and its
/// uniform has a place that no other block's has: the one given back last, where there is
/// one.
pub proof fn lemma_created(table: TableState, i: int)
    requires
        table.valid(),
        table.next_id < u32::MAX,
        table.slot_top < u32::MAX,
        0 <= i < table.blocks.len(),
    ensures
        ({
            let after = table.created();
            let own = after.blocks.last();
            &&& after.blocks.len() == table.blocks.len() + 1
            &&& after.blocks[i] == table.blocks[i]
            &&& own.id == table.next_id
            &&& own.id > table.blocks[i].id
            &&& after.next_id > own.id
            &&& own.slot != table.blocks[i].slot
            &&& table.free_slots.len() > 0 ==> own.slot == table.free_slots.last()
                && after.slot_top == table.slot_top && after.free_slots
                == table.free_slots.drop_last()
            &&& table.free_slots.len() == 0 ==> own.slot == table.slot_top && after.slot_top
                == table.slot_top + 1 && after.free_slots.len() == 0
            &&& own.offset == (0u32, 0u32)
            &&& own.visible
            &&& own.uniform_dirty
            &&& !own.content_dirty
            &&& !own.stale
            &&& own.curve_keys.len() == 0 && own.atlas_keys.len() == 0
        }),
{
    if table.free_slots.len() > 0 {
        let last = table.free_slots.len() - 1;
        assert(table.blocks[i].slot != table.free_slots[last]);
    }
}

/// Dropping a block leaves the others in their order and as they were, takes its uniform
/// place back, and never hands its handle out again.
pub proof fn lemma_dropped(table: TableState, i: int, k: int)
    requires
        table.valid(),
        0 <= i < table.blocks.len(),
        0 <= k < table.blocks.len() - 1,
    ensures
        ({
            let after = table.dropped(i);
            &&& after.blocks.len() == table.blocks.len() - 1
            &&& k < i ==> after.blocks[k] == table.blocks[k]
            &&& k >= i ==> after.blocks[k] == table.blocks[k + 1]
            &&& after.blocks[k].id != table.blocks[i].id
            &&& after.free_slots.last() == table.blocks[i].slot
            &&& after.free_slots.drop_last() == table.free_slots
            &&& after.next_id == table.next_id
            &&& table.blocks[i].id < after.next_id
            &&& after.slot_top == table.slot_top
        }),
{
    assert(table.dropped(i).free_slots.drop_last() =~= table.free_slots);
    if k < i {
        assert(table.blocks[k].id < table.blocks[i].id);
    } else {
        assert(table.blocks[i].id < table.blocks[k + 1].id);
    }
}

/// Another block in a place changes that place alone.
pub proof fn lemma_with(table: TableState, i: int, block: BlockState, k: int)
    requires
        0 <= i < table.blocks.len(),
        0 <= k < table.blocks.len(),
    ensures
        table.with(i, block).blocks[i] == block,
        k != i ==> table.with(i, block).blocks[k] == table.blocks[k],
        table.with(i, block).blocks.len() == table.blocks.len(),
        table.with(i, block).next_id == table.next_id,
        table.with(i, block).free_slots == table.free_slots,
        table.with(i, block).slot_top == table.slot_top,
{
}

} // verus!
