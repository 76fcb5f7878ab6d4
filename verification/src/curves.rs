//! The curve store: glyph outlines packed into a data texture.
//!
//! Curves are stored once per font, glyph and weight, in em units, and reused at every
//! size. The texture grows by doubling its height until it hits its cap; then the least
//! recently used half of the entries is evicted. Eviction never happens in the middle of
//! a frame, because queued instances hold raw texel indices: it waits for the next
//! [`CurveStore::begin_frame`].

use std::collections::HashMap;
use vstd::prelude::*;
use vstd::std_specs::iter::IteratorSpec;
use crate::arena;
use crate::bands;
use crate::bands::{Band, Curve, BANDED_FLAG, BANDS, BAND_MIN_CURVES, BYTES_PER_TEXEL, FLOATS_PER_TEXEL};

verus! {

broadcast use vstd::std_specs::hash::group_hash_axioms;

/// Width in texels of the curve texture. Even, so that a curve's two texels never straddle
/// a row.
pub const CURVE_TEX_WIDTH: u32 = 256;

/// Height the curve texture starts at.
pub const CURVE_TEX_HEIGHT: u32 = 2048;

/// Ceiling on the height of the curve texture; past it glyphs are evicted instead.
pub const CURVE_TEX_MAX_HEIGHT: u32 = 8192;

/// Most texels that a curve texture may have, a limit of this crate. A texture of
/// [`CURVE_TEX_WIDTH`] by [`CURVE_TEX_MAX_HEIGHT`] is far below it.
pub const MAX_TEXELS: u64 = 0x1000_0000;

/// Halves in one texture row.
pub fn floats_per_row(width: u32) -> (halves: usize)
    requires
        width * 4 <= usize::MAX,
    ensures
        halves == width * 4,
{
    width as usize * FLOATS_PER_TEXEL
}

/// How many texels a `width` by `height` texture holds.
pub fn texel_capacity(width: u32, height: u32) -> (texels: usize)
    requires
        width * height <= usize::MAX,
    ensures
        texels == width * height,
{
    assert(0 <= width * height) by (nonlinear_arith);
    width as usize * height as usize
}

/// A glyph's quadratics inside the curve texture, in em units.
#[derive(Clone, Copy, Debug)]
pub struct GlyphCurves {
    /// Base texel of the glyph's block.
    pub first: u32,
    /// Quadratics per master in the block. Never carries [`BANDED_FLAG`].
    pub count: u32,
    /// Em-space bounds (left, bottom, right, top) over both masters, as the bit patterns of
    /// single-precision numbers.
    pub bbox: [u32; 4],
    /// Whether the block starts with band tables.
    pub banded: bool,
    /// Whether a second master's region follows the first's.
    pub dual_master: bool,
    /// Blend factor matching the weight the text was shaped at, as a bit pattern.
    pub weight_t: u32,
    /// Texels one master's records occupy, which is also the distance between a record of
    /// one master and its twin of the other.
    pub record_texels: u32,
    /// Length of the whole block in texels.
    pub texels: u32,
}

impl GlyphCurves {
    /// The count for an instance: the curve count, tagged with [`BANDED_FLAG`] where band
    /// tables are to be read first.
    pub fn instance_count(&self) -> (count: u32)
        requires
            self.count < BANDED_FLAG,
        ensures
            count == (if self.banded {
                self.count + BANDED_FLAG
            } else {
                self.count as int
            }),
    {
        if self.banded {
            proof {
                let c = self.count;
                assert(c < 0x8000_0000u32 ==> c | 0x8000_0000u32 == c + 0x8000_0000u32)
                    by (bit_vector);
            }
            self.count | BANDED_FLAG
        } else {
            self.count
        }
    }

    /// The base of the second master's records, or 0 for a glyph of one master. A block
    /// always begins with the first master, so a glyph of two can never land on 0.
    pub fn b_first(&self) -> (base: u32)
        requires
            self.dual_master ==> self.first + self.record_texels <= u32::MAX,
        ensures
            base == (if self.dual_master {
                self.first + self.record_texels
            } else {
                0
            }),
            self.dual_master && self.record_texels > 0 ==> base != 0,
    {
        if self.dual_master {
            self.first + self.record_texels
        } else {
            0
        }
    }
}

/// What a glyph is stored under.
#[derive(Clone, Copy, Debug, PartialEq, Eq, Structural, Hash)]
pub struct GlyphKey {
    pub font: u32,
    pub glyph_id: u16,
    pub weight: u16,
    pub flags: u32,
}

impl GlyphKey {
    /// The key of a glyph.
    pub fn new(font: u32, glyph_id: u16, weight: u16, flags: u32) -> (key: GlyphKey)
        ensures
            key == (GlyphKey { font, glyph_id, weight, flags }),
    {
        GlyphKey { font, glyph_id, weight, flags }
    }

    /// One number for the whole key.
    pub open spec fn number(self) -> int {
        ((self.font * 0x1_0000 + self.glyph_id) * 0x1_0000 + self.weight) * 0x1_0000_0000
            + self.flags
    }

    pub(crate) fn pack(&self) -> (n: u128)
        ensures
            n == self.number(),
    {
        ((self.font as u128 * 0x1_0000 + self.glyph_id as u128) * 0x1_0000 + self.weight as u128)
            * 0x1_0000_0000 + self.flags as u128
    }
}

/// Different keys have different numbers.
pub proof fn lemma_key_number_injective(a: GlyphKey, b: GlyphKey)
    requires
        a.number() == b.number(),
    ensures
        a == b,
{
}

/// A cached extraction: the curves (or nothing, for a glyph without an outline) and the
/// frame it was last drawn on.
#[derive(Clone, Copy)]
pub struct Entry {
    pub curves: Option<GlyphCurves>,
    pub last_used: u64,
}

/// A glyph's outline as quadratics, ready to be stored.
pub struct Outline {
    /// The first master's curves.
    pub a: Vec<Curve>,
    /// The second master's, as many and in the same order.
    pub b: Option<Vec<Curve>>,
    /// Curves per contour.
    pub contours: Vec<u32>,
    /// The bands along y, then those along x, where the outline may be banded.
    pub table: Option<Vec<Band>>,
    /// Bounds over both masters, as bit patterns.
    pub bbox: [u32; 4],
    /// The blend of the weight it was shaped at, as a bit pattern.
    pub weight_t: u32,
}

/// What an [`Outline`] holds.
pub ghost struct OutlineState {
    pub a: Seq<Curve>,
    pub b: Option<Seq<Curve>>,
    pub contours: Seq<u32>,
    pub table: Option<Seq<bands::BandState>>,
    pub bbox: [u32; 4],
    pub weight_t: u32,
}

impl View for Outline {
    type V = OutlineState;

    open spec fn view(&self) -> OutlineState {
        OutlineState {
            a: self.a@,
            b: match self.b {
                Some(b) => Some(b@),
                None => None,
            },
            contours: self.contours@,
            table: match self.table {
                Some(table) => Some(bands::band_states(table@)),
                None => None,
            },
            bbox: self.bbox,
            weight_t: self.weight_t,
        }
    }
}

/// Most curves a glyph may have, a limit of this crate.
pub const MAX_CURVES: usize = 0x100_0000;

impl OutlineState {
    /// The masters match, the contours share the curves out, and the bands hold curves of
    /// the outline.
    pub open spec fn valid(self) -> bool {
        &&& self.a.len() <= MAX_CURVES
        &&& bands::contours_fit(self.contours, self.a.len() as int)
        &&& self.b matches Some(b) ==> b.len() == self.a.len()
        &&& self.table matches Some(table) ==> table.len() == 2 * BANDS && bands::table_fits(
            table,
            self.a.len() as int,
        )
    }

    /// The outline gets band tables: it has more curves than `least`, and every integer in
    /// the tables is one that a half holds exactly.
    pub open spec fn banded(self, least: int) -> bool {
        self.a.len() > least && (self.table matches Some(table) && bands::fits_halves(
            self.a.len() as int,
            self.contours.len() as int,
            table,
        ))
    }

    /// The outline's block.
    pub open spec fn block(self, least: int) -> Seq<u16> {
        if self.banded(least) {
            bands::banded_lanes(self.a, self.b, self.contours, self.table->0)
        } else {
            bands::flat_lanes_of(self.a, self.b)
        }
    }

    /// Texels of one master's records.
    pub open spec fn record_texels(self, least: int) -> int {
        if self.banded(least) {
            bands::even_up((self.a.len() + self.contours.len()) as int)
        } else {
            2 * (self.a.len() as int)
        }
    }

    /// What is kept of the outline once its block starts at texel `first`. A blank glyph
    /// has no block.
    pub open spec fn stored(self, least: int, first: int) -> GlyphCurves {
        if self.a.len() == 0 {
            GlyphCurves {
                first: 0,
                count: 0,
                bbox: [0, 0, 0, 0],
                banded: false,
                dual_master: false,
                weight_t: 0,
                record_texels: 0,
                texels: 0,
            }
        } else {
            GlyphCurves {
                first: first as u32,
                count: self.a.len() as u32,
                bbox: self.bbox,
                banded: self.banded(least),
                dual_master: self.b is Some,
                weight_t: if self.b is Some {
                    self.weight_t
                } else {
                    0
                },
                record_texels: self.record_texels(least) as u32,
                texels: (self.block(least).len() as int / 4) as u32,
            }
        }
    }
}

/// The height that a texture grows to, by doubling up to `max_height`, until `needed`
/// texels fit or it can grow no more.
pub open spec fn grown_height(width: int, height: int, max_height: int, needed: int) -> int
    decreases max_height - height,
{
    if 0 < height < max_height && width * height < needed {
        grown_height(
            width,
            if 2 * height < max_height {
                2 * height
            } else {
                max_height
            },
            max_height,
            needed,
        )
    } else {
        height
    }
}

/// The texels of a glyph's block, from the first up to the last.
pub open spec fn block_range(curves: GlyphCurves) -> (int, int) {
    (curves.first as int, curves.first + curves.texels)
}

/// What a store holds. `data` is the packed halves, of which the texture holds the first
/// `uploaded`.
pub ghost struct StoreState {
    pub width: int,
    pub height: int,
    pub max_height: int,
    pub data: Seq<u16>,
    pub uploaded: int,
    pub entries: Map<u128, Entry>,
    pub generation: int,
    pub layout_generation: int,
    pub relocations: Map<u32, u32>,
    pub least: int,
    pub frame: u64,
    pub needs_compact: bool,
}

impl StoreState {
    /// A key has a block in the store.
    pub open spec fn has_block(self, key: u128) -> bool {
        self.entries.contains_key(key) && (self.entries[key].curves matches Some(c) && c.count > 0)
    }

    /// The curves of a key that has a block.
    pub open spec fn curves_of(self, key: u128) -> GlyphCurves {
        self.entries[key].curves->0
    }

    /// The halves of a key's block.
    pub open spec fn block_of(self, key: u128) -> Seq<u16> {
        let (start, end) = block_range(self.curves_of(key));
        self.data.subrange(4 * start, 4 * end)
    }

    /// Texels the texture holds.
    pub open spec fn capacity(self) -> int {
        self.width * self.height
    }

    /// The texture holds the data, blocks are even runs of texels inside it, and no two
    /// share a texel.
    pub open spec fn valid(self) -> bool {
        &&& 0 < self.width <= u32::MAX
        &&& 0 < self.height <= self.max_height <= u32::MAX
        &&& self.width * self.max_height <= MAX_TEXELS
        &&& self.data.len() % 8 == 0
        &&& self.data.len() <= 4 * self.capacity()
        &&& 0 <= self.uploaded <= self.data.len()
        &&& 0 <= self.least <= u32::MAX
        &&& self.entries.dom().finite()
        &&& forall|key: u128| #[trigger]
            self.has_block(key) ==> {
                let c = self.curves_of(key);
                &&& c.first % 2 == 0
                &&& c.texels % 2 == 0
                &&& 0 < c.texels
                &&& 4 * (c.first + c.texels) <= self.data.len()
            }
        &&& forall|a: u128, b: u128| #[trigger]
            self.has_block(a) && #[trigger] self.has_block(b) && a != b ==> {
                let x = self.curves_of(a);
                let y = self.curves_of(b);
                x.first + x.texels <= y.first || y.first + y.texels <= x.first
            }
    }

    /// The state with an entry stamped as used.
    pub open spec fn touched(self, key: u128, frame: u64) -> StoreState {
        if self.entries.contains_key(key) {
            StoreState {
                entries: self.entries.insert(
                    key,
                    Entry { last_used: frame, ..self.entries[key] },
                ),
                ..self
            }
        } else {
            self
        }
    }

    /// The height at which the data fits once `block` is appended.
    pub open spec fn fitting_height(self, block: Seq<u16>) -> int {
        let needed = (self.data.len() + block.len()) as int / 4;
        if needed <= self.capacity() {
            self.height
        } else {
            grown_height(self.width, self.height, self.max_height, needed)
        }
    }

    /// There is room for `block`, in a taller texture where it takes one.
    pub open spec fn has_room(self, block: Seq<u16>) -> bool {
        self.data.len() + block.len() <= 4 * (self.width * self.fitting_height(block))
    }

    /// The state once an outline was offered under a new key: stored where there is room,
    /// else marked for compaction. A taller texture starts empty.
    pub open spec fn offered(self, key: u128, outline: Option<OutlineState>) -> StoreState {
        match outline {
            None => StoreState {
                entries: self.entries.insert(key, Entry { curves: None, last_used: self.frame }),
                ..self
            },
            Some(outline) => {
                let block = if outline.a.len() == 0 {
                    Seq::empty()
                } else {
                    outline.block(self.least)
                };
                if !self.has_room(block) {
                    StoreState { needs_compact: true, ..self }
                } else {
                    let grows = self.fitting_height(block) != self.height;
                    StoreState {
                        height: self.fitting_height(block),
                        data: self.data + block,
                        uploaded: if grows {
                            0
                        } else {
                            self.uploaded
                        },
                        generation: if grows {
                            self.generation + 1
                        } else {
                            self.generation
                        },
                        entries: self.entries.insert(
                            key,
                            Entry {
                                curves: Some(
                                    outline.stored(self.least, self.data.len() as int / 4),
                                ),
                                last_used: self.frame,
                            },
                        ),
                        ..self
                    }
                }
            },
        }
    }

    /// The blocks of the first `n` keys of an order, one after the other.
    pub open spec fn packed(self, order: Seq<u128>, n: int) -> Seq<u16>
        decreases n,
    {
        if n <= 0 {
            Seq::empty()
        } else if self.has_block(order[n - 1]) {
            self.packed(order, n - 1) + self.block_of(order[n - 1])
        } else {
            self.packed(order, n - 1)
        }
    }

    /// The entry of the `i`-th key of an order, once the blocks have been packed in that
    /// order.
    pub open spec fn moved(self, order: Seq<u128>, i: int) -> Entry {
        let entry = self.entries[order[i]];
        Entry {
            curves: match entry.curves {
                None => None,
                Some(c) => Some(
                    GlyphCurves {
                        first: if c.count == 0 {
                            0
                        } else {
                            (self.packed(order, i).len() as int / 4) as u32
                        },
                        ..c
                    },
                ),
            },
            ..entry
        }
    }

    /// The order holds the entries that survive a compaction: all but the least recently
    /// used half.
    pub open spec fn survivors(self, order: Seq<u128>) -> bool {
        &&& order.no_duplicates()
        &&& forall|i: int| 0 <= i < order.len() ==> self.entries.contains_key(#[trigger] order[i])
        &&& order.len() == self.entries.dom().len() - self.entries.dom().len() / 2
        &&& forall|key: u128, i: int|
            #![trigger self.entries.contains_key(key), order[i]]
            self.entries.contains_key(key) && !order.contains(key) && 0 <= i < order.len()
                ==> self.entries[key].last_used <= self.entries[order[i]].last_used
    }

    /// The state `after` has only the entries of the order, their blocks packed densely in
    /// that order, and every move recorded.
    pub open spec fn compacted(self, order: Seq<u128>, after: StoreState) -> bool {
        &&& after.entries.dom() == order.to_set()
        &&& forall|i: int|
            0 <= i < order.len() ==> after.entries[#[trigger] order[i]] == self.moved(order, i)
        &&& forall|i: int|
            0 <= i < order.len() && self.has_block(#[trigger] order[i])
                ==> after.relocations.contains_key(self.curves_of(order[i]).first)
                && after.relocations[self.curves_of(order[i]).first] == self.packed(
                order,
                i,
            ).len() as int / 4
        &&& forall|first: u32| #[trigger]
            after.relocations.contains_key(first) ==> exists|i: int|
                0 <= i < order.len() && self.has_block(#[trigger] order[i]) && self.curves_of(
                    order[i],
                ).first == first
        &&& after == (StoreState {
            data: self.packed(order, order.len() as int),
            uploaded: 0,
            entries: after.entries,
            generation: self.generation + 1,
            layout_generation: self.layout_generation + 1,
            relocations: after.relocations,
            needs_compact: false,
            ..self
        })
    }
}

proof fn lemma_packed_prefix(state: StoreState, order: Seq<u128>, i: int, n: int)
    requires
        state.valid(),
        0 <= i <= n <= order.len(),
    ensures
        state.packed(order, i).is_prefix_of(state.packed(order, n)),
        state.packed(order, n).len() % 8 == 0,
        state.packed(order, i).len() % 8 == 0,
        state.packed(order, i).len() <= state.packed(order, n).len(),
        i < n && state.has_block(order[i]) ==> state.packed(order, i).len() + 4 * state.curves_of(
            order[i],
        ).texels <= state.packed(order, n).len(),
        i < n && state.has_block(order[i]) ==> state.packed(order, n).subrange(
            state.packed(order, i).len() as int,
            state.packed(order, i).len() + 4 * state.curves_of(order[i]).texels,
        ) == state.block_of(order[i]),
    decreases n,
{
    let a = state.packed(order, i);
    let b = state.packed(order, n);
    if n > 0 && state.has_block(order[n - 1]) {
        let c = state.curves_of(order[n - 1]);
        assert(state.block_of(order[n - 1]).len() == 4 * c.texels);
    }
    if i < n {
        lemma_packed_prefix(state, order, i, n - 1);
        let c = state.packed(order, n - 1);
        assert(a =~= c.take(a.len() as int));
        assert(a =~= b.take(a.len() as int));
        if state.has_block(order[i]) {
            if i < n - 1 {
                let end = a.len() + 4 * state.curves_of(order[i]).texels;
                assert(b.subrange(a.len() as int, end) =~= c.subrange(a.len() as int, end));
            } else {
                let end = a.len() + 4 * state.curves_of(order[i]).texels;
                assert(b.subrange(a.len() as int, end) =~= state.block_of(order[i]));
            }
        }
    } else {
        assert(a =~= b.take(a.len() as int));
        if n > 0 {
            lemma_packed_prefix(state, order, n - 1, n - 1);
        }
    }
}

/// The keys of a list of ages.
spec fn keys_of(ages: Seq<(u64, u128)>) -> Seq<u128> {
    Seq::new(ages.len(), |i: int| ages[i].1)
}

/// The list holds every key of the map once, with its age.
spec fn lists_ages(ages: Seq<(u64, u128)>, entries: Map<u128, Entry>) -> bool {
    &&& keys_of(ages).no_duplicates()
    &&& keys_of(ages).to_set() == entries.dom()
    &&& forall|i: int|
        0 <= i < ages.len() ==> entries.contains_key((#[trigger] ages[i]).1)
            && entries[ages[i].1].last_used == ages[i].0
}

/// Every key with the frame it was last used on.
fn ages_of(entries: &HashMap<u128, Entry>) -> (ages: Vec<(u64, u128)>)
    ensures
        lists_ages(ages@, entries@),
{
    let mut ages: Vec<(u64, u128)> = Vec::new();
    let ghost all = vstd::std_specs::hash::spec_keys_iter(entries).remaining();
    for key in keys: entries.keys()
        invariant
            keys.seq() == all,
            all.unref().to_set() == entries@.dom(),
            all.no_duplicates(),
            ages@.len() == keys.index(),
            forall|i: int|
                0 <= i < ages@.len() ==> (#[trigger] ages@[i]).1 == *all[i]
                    && entries@.contains_key(ages@[i].1) && entries@[ages@[i].1].last_used
                    == ages@[i].0,
    {
        proof {
            let plain = all.unref();
            assert(plain[keys.index() as int] == *key);
            assert(plain.contains(*key));
            assert(plain.to_set().contains(*key));
        }
        if let Some(entry) = entries.get(key) {
            ages.push((entry.last_used, *key));
        }
    }
    assert(keys_of(ages@) =~= all.unref());
    ages
}

/// `sort_unstable` of std's slices: sorts by the order of the elements, here that of pairs
/// of integers, first by the first and then by the second, and keeps the same elements.
#[verifier::external_body]
fn sort_ages(ages: &mut Vec<(u64, u128)>)
    ensures
        final(ages)@.to_multiset() == old(ages)@.to_multiset(),
        forall|i: int, j: int|
            0 <= i < j < final(ages)@.len() ==> (#[trigger] final(ages)@[i]).0 < (
            #[trigger] final(ages)@[j]).0 || (final(ages)@[i].0 == final(ages)@[j].0
                && final(ages)@[i].1 <= final(ages)@[j].1),
{
    ages.sort_unstable();
}

proof fn lemma_ages_permuted(a: Seq<(u64, u128)>, b: Seq<(u64, u128)>, entries: Map<u128, Entry>)
    requires
        lists_ages(a, entries),
        a.to_multiset() == b.to_multiset(),
    ensures
        lists_ages(b, entries),
        b.len() == a.len(),
{
    a.to_multiset_ensures();
    b.to_multiset_ensures();
    assert(a.no_duplicates()) by {
        assert forall|i: int, j: int| 0 <= i < j < a.len() implies a[i] != a[j] by {
            assert(keys_of(a)[i] != keys_of(a)[j]);
        }
    }
    a.lemma_multiset_has_no_duplicates();
    assert forall|x: (u64, u128)| b.to_multiset().contains(x) implies b.to_multiset().count(x) == 1 by {
        assert(a.to_multiset().contains(x));
    }
    b.lemma_multiset_has_no_duplicates_conv();
    assert forall|i: int| 0 <= i < b.len() implies entries.contains_key((#[trigger] b[i]).1)
        && entries[b[i].1].last_used == b[i].0 by {
        assert(b.contains(b[i]));
        assert(a.to_multiset().count(b[i]) > 0);
        assert(a.contains(b[i]));
        let j = choose|j: int| 0 <= j < a.len() && a[j] == b[i];
        assert(entries.contains_key(a[j].1));
    }
    assert(keys_of(b).no_duplicates()) by {
        assert forall|i: int, j: int| 0 <= i < j < b.len() implies keys_of(b)[i] != keys_of(
            b,
        )[j] by {
            assert(b[i] != b[j]);
            assert(entries[b[i].1].last_used == b[i].0);
            assert(entries[b[j].1].last_used == b[j].0);
        }
    }
    assert(keys_of(b).to_set() =~= entries.dom()) by {
        assert forall|k: u128| keys_of(b).to_set().contains(k) <==> entries.dom().contains(k) by {
            if entries.dom().contains(k) {
                assert(keys_of(a).to_set().contains(k));
                assert(keys_of(a).contains(k));
                let i = choose|i: int| 0 <= i < a.len() && keys_of(a)[i] == k;
                assert(a.contains(a[i]));
                assert(b.to_multiset().count(a[i]) > 0);
                assert(b.contains(a[i]));
                let j = choose|j: int| 0 <= j < b.len() && b[j] == a[i];
                assert(keys_of(b)[j] == k);
                assert(keys_of(b).contains(k));
            }
            if keys_of(b).to_set().contains(k) {
                assert(keys_of(b).contains(k));
                let i = choose|i: int| 0 <= i < b.len() && keys_of(b)[i] == k;
                assert(entries.contains_key(b[i].1));
            }
        }
    }
}

/// The blocks of the first `n` keys of an order, as spans of texels.
spec fn block_spans(state: StoreState, order: Seq<u128>, n: int) -> Seq<arena::Span>
    decreases n,
{
    if n <= 0 {
        Seq::empty()
    } else if state.has_block(order[n - 1]) {
        let c = state.curves_of(order[n - 1]);
        block_spans(state, order, n - 1).push(arena::Span { start: c.first, cap: c.texels, len: 0 })
    } else {
        block_spans(state, order, n - 1)
    }
}

proof fn lemma_block_spans(state: StoreState, order: Seq<u128>, n: int)
    requires
        state.valid(),
        order.no_duplicates(),
        0 <= n <= order.len(),
    ensures
        arena::all_disjoint(block_spans(state, order, n)),
        4 * arena::total_cap(block_spans(state, order, n)) == state.packed(order, n).len(),
        forall|j: int|
            0 <= j < block_spans(state, order, n).len() ==> {
                let span = #[trigger] block_spans(state, order, n)[j];
                &&& 4 * span.end() <= state.data.len()
                &&& exists|i: int|
                    0 <= i < n && state.has_block(#[trigger] order[i]) && state.curves_of(
                        order[i],
                    ).first == span.start && state.curves_of(order[i]).texels == span.cap
            },
    decreases n,
{
    if n > 0 {
        lemma_block_spans(state, order, n - 1);
        let before = block_spans(state, order, n - 1);
        let after = block_spans(state, order, n);
        if state.has_block(order[n - 1]) {
            let c = state.curves_of(order[n - 1]);
            assert(state.block_of(order[n - 1]).len() == 4 * c.texels);
            assert(after.drop_last() =~= before);
            assert forall|j: int| 0 <= j < after.len() implies {
                let span = #[trigger] after[j];
                &&& 4 * span.end() <= state.data.len()
                &&& exists|i: int|
                    0 <= i < n && state.has_block(#[trigger] order[i]) && state.curves_of(
                        order[i],
                    ).first == span.start && state.curves_of(order[i]).texels == span.cap
            } by {
                if j < before.len() {
                    assert(after[j] == before[j]);
                    let i = choose|i: int|
                        0 <= i < n - 1 && state.has_block(#[trigger] order[i]) && state.curves_of(
                            order[i],
                        ).first == before[j].start && state.curves_of(order[i]).texels
                            == before[j].cap;
                    assert(state.has_block(order[i]));
                } else {
                    assert(state.has_block(order[n - 1]));
                }
            }
            assert forall|i: int, j: int| 0 <= i < j < after.len() implies (
            #[trigger] after[i]).disjoint(#[trigger] after[j]) by {
                if j < before.len() {
                    assert(before[i].disjoint(before[j]));
                } else {
                    assert(after[i] == before[i]);
                    let m = choose|m: int|
                        0 <= m < n - 1 && state.has_block(#[trigger] order[m]) && state.curves_of(
                            order[m],
                        ).first == before[i].start && state.curves_of(order[m]).texels
                            == before[i].cap;
                    assert(order[m] != order[n - 1]);
                    assert(state.has_block(order[m]) && state.has_block(order[n - 1]));
                }
            }
        } else {
            assert forall|j: int| 0 <= j < after.len() implies {
                let span = #[trigger] after[j];
                &&& 4 * span.end() <= state.data.len()
                &&& exists|i: int|
                    0 <= i < n && state.has_block(#[trigger] order[i]) && state.curves_of(
                        order[i],
                    ).first == span.start && state.curves_of(order[i]).texels == span.cap
            } by {
                let i = choose|i: int|
                    0 <= i < n - 1 && state.has_block(#[trigger] order[i]) && state.curves_of(
                        order[i],
                    ).first == before[j].start && state.curves_of(order[i]).texels == before[j].cap;
                assert(state.has_block(order[i]));
            }
        }
    }
}

/// Packing never takes more room than the blocks had.
proof fn lemma_packed_fits(state: StoreState, order: Seq<u128>, n: int)
    requires
        state.valid(),
        order.no_duplicates(),
        0 <= n <= order.len(),
    ensures
        state.packed(order, n).len() <= state.data.len(),
{
    lemma_block_spans(state, order, n);
    let spans = block_spans(state, order, n);
    let top = state.data.len() as int / 4;
    assert forall|i: int| 0 <= i < spans.len() implies (#[trigger] spans[i]).end() <= top by {
        assert(4 * spans[i].end() <= state.data.len());
    }
    arena::lemma_total_cap_bounded(spans, top);
}

/// Compaction keeps the survivors' blocks, half for half, and leaves a valid store.
pub proof fn lemma_compaction_keeps_blocks(state: StoreState, order: Seq<u128>, after: StoreState)
    requires
        state.valid(),
        state.survivors(order),
        state.compacted(order, after),
    ensures
        after.valid(),
        forall|key: u128| #[trigger]
            order.contains(key) ==> (after.has_block(key) == state.has_block(key)) && (
            state.has_block(key) ==> after.block_of(key) == state.block_of(key)
                && after.relocations[state.curves_of(key).first] == after.curves_of(key).first),
{
    let n = order.len() as int;
    lemma_packed_fits(state, order, n);
    lemma_packed_prefix(state, order, n, n);
    assert forall|i: int| 0 <= i < n implies {
        let key = #[trigger] order[i];
        &&& after.has_block(key) == state.has_block(key)
        &&& state.has_block(key) ==> {
            let c = after.curves_of(key);
            &&& c.first == state.packed(order, i).len() as int / 4
            &&& c.first % 2 == 0
            &&& c.texels == state.curves_of(key).texels
            &&& 4 * (c.first + c.texels) <= after.data.len()
            &&& after.block_of(key) == state.block_of(key)
        }
    } by {
        let key = order[i];
        assert(order.to_set().contains(key)) by {
            assert(order.contains(key));
        }
        assert(after.entries.contains_key(key));
        assert(after.entries[key] == state.moved(order, i));
        if state.has_block(key) {
            lemma_packed_prefix(state, order, i, n);
            assert(after.block_of(key) =~= state.block_of(key));
        }
    }
    assert forall|key: u128| #[trigger] after.has_block(key) implies {
        let c = after.curves_of(key);
        &&& c.first % 2 == 0
        &&& c.texels % 2 == 0
        &&& 0 < c.texels
        &&& 4 * (c.first + c.texels) <= after.data.len()
    } by {
        assert(order.to_set().contains(key));
        assert(order.contains(key));
        let i = choose|i: int| 0 <= i < n && order[i] == key;
        assert(state.has_block(order[i]));
    }
    assert forall|a: u128, b: u128| #[trigger]
        after.has_block(a) && #[trigger] after.has_block(b) && a != b implies {
        let x = after.curves_of(a);
        let y = after.curves_of(b);
        x.first + x.texels <= y.first || y.first + y.texels <= x.first
    } by {
        assert(order.to_set().contains(a) && order.to_set().contains(b));
        assert(order.contains(a) && order.contains(b));
        let i = choose|i: int| 0 <= i < n && order[i] == a;
        let j = choose|j: int| 0 <= j < n && order[j] == b;
        assert(state.has_block(order[i]) && state.has_block(order[j]));
        if i < j {
            lemma_packed_prefix(state, order, i, j);
        } else {
            lemma_packed_prefix(state, order, j, i);
        }
    }
    assert forall|key: u128| #[trigger] order.contains(key) implies (after.has_block(key)
        == state.has_block(key)) && (state.has_block(key) ==> after.block_of(key)
        == state.block_of(key) && after.relocations[state.curves_of(key).first]
        == after.curves_of(key).first) by {
        let i = choose|i: int| 0 <= i < n && order[i] == key;
        assert(after.has_block(order[i]) == state.has_block(order[i]));
    }
    assert(after.entries.dom().finite()) by {
        vstd::seq_lib::seq_to_set_is_finite(order);
    }
}

/// The entries stamped with a frame.
pub open spec fn stamped(entries: Map<u128, Entry>, frame: u64) -> Set<u128> {
    entries.dom().filter(|key: u128| entries[key].last_used == frame)
}

/// A glyph stamped with the latest frame survives a compaction, as long as no more glyphs
/// are stamped with that frame than a compaction keeps.
pub proof fn lemma_stamped_survive(state: StoreState, order: Seq<u128>, frame: u64, key: u128)
    requires
        state.valid(),
        state.survivors(order),
        forall|k: u128| #[trigger]
            state.entries.contains_key(k) ==> state.entries[k].last_used <= frame,
        stamped(state.entries, frame).len() <= state.entries.dom().len()
            - state.entries.dom().len() / 2,
        stamped(state.entries, frame).contains(key),
    ensures
        order.contains(key),
{
    let all = stamped(state.entries, frame);
    if !order.contains(key) {
        let kept = order.to_set();
        order.unique_seq_to_set();
        assert forall|k: u128| kept.contains(k) implies #[trigger] all.remove(key).contains(k) by {
            let i = choose|i: int| 0 <= i < order.len() && order[i] == k;
            assert(state.entries.contains_key(order[i]));
        }
        vstd::set_lib::lemma_len_subset(kept, all.remove(key));
    }
}

proof fn lemma_grown_height(width: int, height: int, max_height: int, needed: int)
    requires
        0 < width,
        0 < height <= max_height,
    ensures
        height <= grown_height(width, height, max_height, needed) <= max_height,
        width * grown_height(width, height, max_height, needed) >= needed || grown_height(
            width,
            height,
            max_height,
            needed,
        ) == max_height,
    decreases max_height - height,
{
    if height < max_height && width * height < needed {
        lemma_grown_height(
            width,
            if 2 * height < max_height {
                2 * height
            } else {
                max_height
            },
            max_height,
            needed,
        );
    }
}

/// A block is an even number of texels, and holds at least one master's records.
pub proof fn lemma_block_len(outline: OutlineState, least: int)
    requires
        outline.valid(),
        outline.a.len() > 0,
        0 <= least,
    ensures
        outline.block(least).len() % 8 == 0,
        0 < outline.block(least).len() <= 0x4000_0000,
        0 < outline.record_texels(least) <= outline.block(least).len() / 4,
{
    let count = outline.a.len() as int;
    bands::lemma_contours_counted(outline.contours, outline.contours.len() as int);
    if outline.banded(least) {
        let table = outline.table->0;
        bands::lemma_banded_len(outline.a, outline.b, outline.contours, table);
    } else {
        bands::lemma_flat_len(outline.a, outline.b);
    }
}

/// Offering an outline to a valid store leaves a valid store, in which every other glyph
/// keeps its block where it is.
pub proof fn lemma_offered(state: StoreState, key: u128, outline: Option<OutlineState>)
    requires
        state.valid(),
        !state.entries.contains_key(key),
        outline matches Some(o) ==> o.valid(),
    ensures
        state.offered(key, outline).valid(),
        forall|other: u128| #[trigger]
            state.has_block(other) ==> state.offered(key, outline).has_block(other)
                && state.offered(key, outline).curves_of(other) == state.curves_of(other)
                && state.offered(key, outline).block_of(other) == state.block_of(other),
{
    let after = state.offered(key, outline);
    match outline {
        None => {
            assert forall|other: u128| #[trigger] after.has_block(other) implies state.has_block(
                other,
            ) && after.curves_of(other) == state.curves_of(other) by {}
            assert forall|other: u128| #[trigger] state.has_block(other) implies after.has_block(
                other,
            ) && after.curves_of(other) == state.curves_of(other) by {}
        },
        Some(o) => {
            let block = if o.a.len() == 0 {
                Seq::empty()
            } else {
                o.block(state.least)
            };
            if o.a.len() > 0 {
                lemma_block_len(o, state.least);
            }
            if state.has_room(block) {
                let needed = (state.data.len() + block.len()) as int / 4;
                lemma_grown_height(state.width, state.height, state.max_height, needed);
                assert(state.width * after.height <= state.width * state.max_height)
                    by (nonlinear_arith)
                    requires
                        0 < state.width,
                        after.height <= state.max_height,
                ;
                assert forall|other: u128| #[trigger] after.has_block(other) && other
                    != key implies state.has_block(other) && after.curves_of(other)
                    == state.curves_of(other) by {}
                assert forall|other: u128| #[trigger] state.has_block(other) implies after.has_block(
                    other,
                ) && after.curves_of(other) == state.curves_of(other) && after.block_of(other)
                    == state.block_of(other) by {
                    let (start, end) = block_range(state.curves_of(other));
                    assert(after.data.subrange(4 * start, 4 * end) =~= state.data.subrange(
                        4 * start,
                        4 * end,
                    ));
                }
                assert forall|k: u128| #[trigger] after.has_block(k) implies {
                    let c = after.curves_of(k);
                    &&& c.first % 2 == 0
                    &&& c.texels % 2 == 0
                    &&& 0 < c.texels
                    &&& 4 * (c.first + c.texels) <= after.data.len()
                } by {
                    if k != key {
                        assert(state.has_block(k));
                    }
                }
                assert forall|a: u128, b: u128| #[trigger]
                    after.has_block(a) && #[trigger] after.has_block(b) && a != b implies {
                    let x = after.curves_of(a);
                    let y = after.curves_of(b);
                    x.first + x.texels <= y.first || y.first + y.texels <= x.first
                } by {
                    if a != key {
                        assert(state.has_block(a));
                    }
                    if b != key {
                        assert(state.has_block(b));
                    }
                }
            } else {
                assert forall|other: u128| #[trigger] after.has_block(other) implies
                    state.has_block(other) by {}
            }
        },
    }
}

/// An outline's block, whether it is banded, and the texels of one master's records.
pub(crate) fn lay_out(outline: &Outline, least: u32) -> (laid: (Vec<u16>, bool, u32))
    requires
        outline@.valid(),
        outline@.a.len() > 0,
    ensures
        laid.0@ == outline@.block(least as int),
        laid.1 == outline@.banded(least as int),
        laid.2 == outline@.record_texels(least as int),
{
    proof {
        bands::lemma_contours_counted(outline.contours@, outline.contours@.len() as int);
    }
    let count: u32 = outline.a.len() as u32;
    let b: Option<&Vec<Curve>> = match &outline.b {
        Some(b) => Some(b),
        None => None,
    };
    assert(bands::master_view(b) == outline@.b);
    // A block whose offsets outgrow the exact integers of a half keeps the flat layout,
    // which stores no integers at all.
    let mut tabled: Option<Vec<u16>> = None;
    if count > least {
        if let Some(table) = &outline.table {
            tabled = bands::banded_block(&outline.a, b, &outline.contours, table);
        }
    }
    match tabled {
        Some(block) => {
            (block, true, bands::shared_texels(outline.a.len(), outline.contours.len()))
        },
        None => (bands::flat_block(&outline.a, b), false, count * 2),
    }
}

/// Rows of the texture to write: `rows` of them from `start_row` on.
pub struct RowUpload {
    pub start_row: u32,
    pub rows: u32,
    pub halves: Vec<u16>,
}

/// The rows are those that hold what the texture does not, the last one filled up with
/// zeros.
pub open spec fn are_due(state: StoreState, u: RowUpload) -> bool {
    let row = 4 * state.width;
    &&& u.start_row == state.uploaded / row
    &&& u.start_row + u.rows == (state.data.len() + row - 1) / row
    &&& u.start_row + u.rows <= state.height
    &&& u.start_row * row <= state.uploaded
    &&& u.halves@.len() == u.rows * row
    &&& forall|i: int|
        0 <= i < u.halves@.len() ==> #[trigger] u.halves@[i] == (if u.start_row * row + i
            < state.data.len() {
            state.data[u.start_row * row + i]
        } else {
            0
        })
}

/// A texture's halves once the rows have been written to it.
pub open spec fn written(texture: Seq<u16>, row: int, u: RowUpload) -> Seq<u16> {
    Seq::new(
        texture.len(),
        |i: int|
            if u.start_row * row <= i < (u.start_row + u.rows) * row {
                u.halves@[i - u.start_row * row]
            } else {
                texture[i]
            },
    )
}

/// A texture that holds what the store takes to be uploaded holds all of the store's data
/// once the rows that are due have been written to it.
pub proof fn lemma_flush_uploads_all(state: StoreState, u: RowUpload, texture: Seq<u16>)
    requires
        state.valid(),
        state.uploaded < state.data.len(),
        are_due(state, u),
        texture.len() == 4 * state.capacity(),
        texture.take(state.uploaded) == state.data.take(state.uploaded),
    ensures
        written(texture, 4 * state.width, u).take(state.data.len() as int) == state.data,
{
    let row = 4 * state.width;
    let len = state.data.len() as int;
    lemma_width_bounds(state.width as u32, state.max_height as u32, state.height as u32);
    lemma_rows(state.width, state.height, len, state.uploaded);
    let start = u.start_row as int;
    let rows = u.rows as int;
    let total = (len + row - 1) / row;
    assert(total == start + rows);
    assert(total * row == start * row + rows * row) by (nonlinear_arith)
        requires
            total == start + rows,
    ;
    assert((u.start_row + u.rows) * row == total * row);
    assert forall|i: int| 0 <= i < len implies #[trigger] written(texture, row, u)[i]
        == state.data[i] by {
        if i < start * row {
            assert(state.uploaded <= texture.len());
            assert(texture.take(state.uploaded)[i] == texture[i]);
            assert(state.data.take(state.uploaded)[i] == state.data[i]);
        } else {
            let k = i - start * row;
            assert(k < rows * row);
            assert(u.halves@.len() == rows * row);
            assert(u.halves@[k] == state.data[start * row + k]);
            assert(i < texture.len());
        }
    }
    assert(written(texture, row, u).take(len) =~= state.data);
}

/// The packed curves of all glyphs in use, and where each one's are.
pub struct CurveStore {
    width: u32,
    height: u32,
    max_height: u32,
    data: Vec<u16>,
    /// How much of `data` the texture already holds. Tracked in halves, not rows: new
    /// glyphs often fit inside the current partial row.
    uploaded: usize,
    entries: HashMap<u128, Entry>,
    generation: u64,
    layout_generation: u64,
    relocations: HashMap<u32, u32>,
    least: u32,
    frame: u64,
    needs_compact: bool,
}

impl View for CurveStore {
    type V = StoreState;

    closed spec fn view(&self) -> StoreState {
        StoreState {
            width: self.width as int,
            height: self.height as int,
            max_height: self.max_height as int,
            data: self.data@,
            uploaded: self.uploaded as int,
            entries: self.entries@,
            generation: self.generation as int,
            layout_generation: self.layout_generation as int,
            relocations: self.relocations@,
            least: self.least as int,
            frame: self.frame,
            needs_compact: self.needs_compact,
        }
    }
}

impl CurveStore {
    /// The state is valid.
    pub open spec fn wf(&self) -> bool {
        self@.valid()
    }

    /// An empty store for a device whose textures are at most `limit` texels high.
    pub fn new(limit: u32) -> (store: CurveStore)
        ensures
            store.wf(),
            store@ == (StoreState {
                width: CURVE_TEX_WIDTH as int,
                height: CURVE_TEX_HEIGHT as int,
                max_height: if limit < CURVE_TEX_HEIGHT {
                    CURVE_TEX_HEIGHT as int
                } else if limit < CURVE_TEX_MAX_HEIGHT {
                    limit as int
                } else {
                    CURVE_TEX_MAX_HEIGHT as int
                },
                data: Seq::empty(),
                uploaded: 0,
                entries: Map::empty(),
                generation: 0,
                layout_generation: 0,
                relocations: Map::empty(),
                least: BAND_MIN_CURVES as int,
                frame: 0,
                needs_compact: false,
            }),
    {
        CurveStore::with_size(CURVE_TEX_WIDTH, CURVE_TEX_HEIGHT, CURVE_TEX_MAX_HEIGHT, limit)
    }

    /// The same with explicit dimensions. The height never grows past what the device
    /// supports.
    pub fn with_size(width: u32, height: u32, max_height: u32, limit: u32) -> (store: CurveStore)
        requires
            0 < width,
            0 < height,
            width * max_height <= MAX_TEXELS,
            width * height <= MAX_TEXELS,
        ensures
            store.wf(),
            store@ == (StoreState {
                width: width as int,
                height: height as int,
                max_height: {
                    let least = if max_height < limit {
                        max_height as int
                    } else {
                        limit as int
                    };
                    if least < height {
                        height as int
                    } else {
                        least
                    }
                },
                data: Seq::empty(),
                uploaded: 0,
                entries: Map::empty(),
                generation: 0,
                layout_generation: 0,
                relocations: Map::empty(),
                least: BAND_MIN_CURVES as int,
                frame: 0,
                needs_compact: false,
            }),
    {
        let mut max: u32 = if max_height < limit {
            max_height
        } else {
            limit
        };
        if max < height {
            max = height;
        }
        proof {
            assert(width * max <= MAX_TEXELS) by (nonlinear_arith)
                requires
                    max <= max_height || max == height,
                    width * max_height <= MAX_TEXELS,
                    width * height <= MAX_TEXELS,
            ;
            assert(0 <= width * height) by (nonlinear_arith);
        }
        CurveStore {
            width,
            height,
            max_height: max,
            data: Vec::new(),
            uploaded: 0,
            entries: HashMap::new(),
            generation: 0,
            layout_generation: 0,
            relocations: HashMap::new(),
            least: BAND_MIN_CURVES,
            frame: 0,
            needs_compact: false,
        }
    }

    /// Sets the curve count past which a glyph gets band tables.
    pub fn set_band_min_curves(&mut self, least: u32)
        requires
            old(self).wf(),
        ensures
            final(self).wf(),
            final(self)@ == (StoreState { least: least as int, ..old(self)@ }),
    {
        self.least = least;
        assert(forall|key: u128| #[trigger] self@.has_block(key) ==> old(self)@.has_block(key));
    }

    /// Curve count past which a glyph gets band tables.
    pub fn band_min_curves(&self) -> (least: u32)
        ensures
            least == self@.least,
    {
        self.least
    }

    /// Changes whenever the texture is replaced or the packing is rewritten.
    pub fn generation(&self) -> (generation: u64)
        ensures
            generation == self@.generation,
    {
        self.generation
    }

    /// Changes only when compaction moves glyphs, which is what invalidates a base texel
    /// that a retained instance holds.
    pub fn layout_generation(&self) -> (generation: u64)
        ensures
            generation == self@.layout_generation,
    {
        self.layout_generation
    }

    /// Where the block that started at `first` starts since the last compaction; nothing
    /// where its glyph was evicted.
    pub fn relocation(&self, first: u32) -> (moved: Option<u32>)
        ensures
            moved == (if self@.relocations.contains_key(first) {
                Some(self@.relocations[first])
            } else {
                None
            }),
    {
        match self.relocations.get(&first) {
            Some(moved) => Some(*moved),
            None => None,
        }
    }

    /// The size of the texture, in texels.
    pub fn size(&self) -> (size: (u32, u32))
        ensures
            size.0 == self@.width,
            size.1 == self@.height,
    {
        (self.width, self.height)
    }

    /// The packed halves.
    pub fn data(&self) -> (data: &[u16])
        ensures
            data@ == self@.data,
    {
        self.data.as_slice()
    }

    /// Starts a frame: stamps new lookups with `frame` and runs any eviction that the last
    /// frame deferred.
    pub fn begin_frame(&mut self, frame: u64)
        requires
            old(self).wf(),
            old(self)@.generation < u64::MAX,
            old(self)@.layout_generation < u64::MAX,
        ensures
            final(self).wf(),
            !old(self)@.needs_compact ==> final(self)@ == (StoreState { frame, ..old(self)@ }),
            old(self)@.needs_compact ==> exists|order: Seq<u128>| #[trigger]
                old(self)@.survivors(order) && (StoreState { frame, ..old(self)@ }).compacted(
                    order,
                    final(self)@,
                ),
    {
        self.frame = frame;
        assert(forall|key: u128| #[trigger] self@.has_block(key) ==> old(self)@.has_block(key));
        let ghost start = self@;
        if self.needs_compact {
            self.compact();
            let ghost order = choose|order: Seq<u128>| #[trigger]
                start.survivors(order) && start.compacted(order, self@);
            assert(old(self)@.survivors(order));
        }
    }

    /// A stored glyph's curves, stamped as used now; nothing where the glyph is not in the
    /// store.
    pub fn get(&mut self, key: GlyphKey) -> (found: Option<Option<GlyphCurves>>)
        requires
            old(self).wf(),
        ensures
            final(self).wf(),
            final(self)@ == old(self)@.touched(key.number() as u128, old(self)@.frame),
            found == (if old(self)@.entries.contains_key(key.number() as u128) {
                Some(old(self)@.entries[key.number() as u128].curves)
            } else {
                None
            }),
    {
        let id: u128 = key.pack();
        let found: Option<Option<GlyphCurves>> = match self.entries.get(&id) {
            Some(entry) => Some(entry.curves),
            None => None,
        };
        self.touch(&key, self.frame);
        found
    }

    /// Fetches the curves of a glyph, storing its outline on first use.
    ///
    /// Nothing comes back for a glyph without an outline, which is to be drawn from a
    /// bitmap, and for one that found no room. A blank glyph has no curves: there is
    /// nothing to draw and nothing to fall back to.
    pub fn get_or_insert(&mut self, key: GlyphKey, outline: Option<&Outline>) -> (curves: Option<
        GlyphCurves,
    >)
        requires
            old(self).wf(),
            outline matches Some(o) ==> o@.valid(),
            old(self)@.generation < u64::MAX,
        ensures
            final(self).wf(),
            ({
                let id = key.number() as u128;
                let state = old(self)@;
                let shape = match outline {
                    Some(o) => Some(o@),
                    None => None,
                };
                if state.entries.contains_key(id) {
                    &&& final(self)@ == state.touched(id, state.frame)
                    &&& curves == state.entries[id].curves
                } else {
                    &&& final(self)@ == state.offered(id, shape)
                    &&& curves == (if final(self)@.entries.contains_key(id) {
                        final(self)@.entries[id].curves
                    } else {
                        None
                    })
                }
            }),
    {
        if let Some(found) = self.get(key) {
            return found;
        }
        assert(self@ == old(self)@);
        let id: u128 = key.pack();
        match outline {
            None => {
                proof {
                    lemma_offered(self@, id, None);
                }
                let before: Option<Entry> = self.entries.insert(
                    id,
                    Entry { curves: None, last_used: self.frame },
                );
                None
            },
            Some(outline) => {
                proof {
                    lemma_offered(self@, id, Some(outline@));
                }
                match self.extract(outline) {
                    Some(curves) => {
                        let before: Option<Entry> = self.entries.insert(
                            id,
                            Entry { curves: Some(curves), last_used: self.frame },
                        );
                        Some(curves)
                    },
                    None => {
                        // Not cached: after compaction this glyph gets another chance.
                        self.needs_compact = true;
                        None
                    },
                }
            },
        }
    }

    /// Appends an outline's block, growing the texture where it takes that. Nothing comes
    /// back where there is no room.
    #[verifier::rlimit(40)]
    #[verifier::spinoff_prover]
    fn extract(&mut self, outline: &Outline) -> (curves: Option<GlyphCurves>)
        requires
            old(self).wf(),
            outline@.valid(),
            old(self)@.generation < u64::MAX,
        ensures
            ({
                let state = old(self)@;
                let block = if outline@.a.len() == 0 {
                    Seq::empty()
                } else {
                    outline@.block(state.least)
                };
                let grows = state.fitting_height(block) != state.height;
                if state.has_room(block) {
                    &&& curves == Some(outline@.stored(state.least, state.data.len() as int / 4))
                    &&& final(self)@ == (StoreState {
                        height: state.fitting_height(block),
                        data: state.data + block,
                        uploaded: if grows {
                            0
                        } else {
                            state.uploaded
                        },
                        generation: if grows {
                            state.generation + 1
                        } else {
                            state.generation
                        },
                        ..state
                    })
                } else {
                    &&& curves is None
                    &&& final(self)@ == state
                }
            }),
    {
        let ghost state = self@;
        let count: u32 = outline.a.len() as u32;
        if count == 0 {
            assert(self@.data + Seq::<u16>::empty() =~= self@.data);
            assert(self@.has_room(Seq::empty()));
            return Some(
                GlyphCurves {
                    first: 0,
                    count: 0,
                    bbox: [0, 0, 0, 0],
                    banded: false,
                    dual_master: false,
                    weight_t: 0,
                    record_texels: 0,
                    texels: 0,
                },
            );
        }
        let (block, banded, record_texels) = lay_out(outline, self.least);
        proof {
            lemma_block_len(outline@, self.least as int);
        }
        let dual_master: bool = outline.b.is_some();
        let weight_t: u32 = if dual_master {
            outline.weight_t
        } else {
            0
        };
        proof {
            lemma_width_bounds(self.width, self.max_height, self.height);
        }
        // Every block is an even number of texels long, so this base is even and no curve
        // record ever straddles a texture row.
        let first: u32 = (self.data.len() / FLOATS_PER_TEXEL) as u32;
        let texels: u32 = (block.len() / FLOATS_PER_TEXEL) as u32;
        let used: usize = (self.data.len() + block.len()) / FLOATS_PER_TEXEL;
        if used > texel_capacity(self.width, self.height) && !self.grow_to_fit(used) {
            return None;
        }
        self.data.extend_from_slice(block.as_slice());
        assert(self.data@ =~= state.data + block@);
        Some(
            GlyphCurves {
                first,
                count,
                bbox: outline.bbox,
                banded,
                dual_master,
                weight_t,
                record_texels,
                texels,
            },
        )
    }

    /// Drops the least recently used half of the entries and repacks the mirror densely,
    /// rewriting the base texels of the survivors. Only called at a frame edge, so no
    /// queued instance can refer to what moves.
    ///
    /// Retained instances do outlive a frame edge, so every move is recorded for them to be
    /// patched.
    fn compact(&mut self)
        requires
            old(self).wf(),
            old(self)@.generation < u64::MAX,
            old(self)@.layout_generation < u64::MAX,
        ensures
            final(self).wf(),
            exists|order: Seq<u128>| #[trigger]
                old(self)@.survivors(order) && old(self)@.compacted(order, final(self)@),
    {
        let ghost start = self@;
        let mut ages: Vec<(u64, u128)> = ages_of(&self.entries);
        let ghost unsorted = ages@;
        sort_ages(&mut ages);
        proof {
            lemma_ages_permuted(unsorted, ages@, start.entries);
            keys_of(ages@).unique_seq_to_set();
        }
        let half: usize = ages.len() / 2;
        let ghost order = keys_of(ages@).skip(half as int);
        assert(start.survivors(order)) by {
            lemma_survivors(start, ages@, half as int);
        }
        let mut kept: HashMap<u128, Entry> = HashMap::new();
        let mut relocations: HashMap<u32, u32> = HashMap::new();
        let mut packed: Vec<u16> = Vec::new();
        let mut i: usize = half;
        assert(order.take(0).to_set() =~= Set::empty());
        while i < ages.len()
            invariant
                half <= i <= ages@.len(),
                order == keys_of(ages@).skip(half as int),
                start == self@,
                start.valid(),
                start.survivors(order),
                packed@ == start.packed(order, i - half),
                kept@.dom() == order.take(i - half).to_set(),
                forall|j: int|
                    0 <= j < i - half ==> kept@[#[trigger] order[j]] == start.moved(order, j),
                forall|j: int|
                    0 <= j < i - half && start.has_block(#[trigger] order[j])
                        ==> relocations@.contains_key(start.curves_of(order[j]).first)
                        && relocations@[start.curves_of(order[j]).first] == start.packed(
                        order,
                        j,
                    ).len() as int / 4,
                forall|first: u32| #[trigger]
                    relocations@.contains_key(first) ==> exists|j: int|
                        0 <= j < i - half && start.has_block(#[trigger] order[j])
                            && start.curves_of(order[j]).first == first,
            decreases ages@.len() - i,
        {
            let ghost m = i - half;
            let key: u128 = ages[i].1;
            assert(key == order[m]);
            assert(start.entries.contains_key(order[m]));
            proof {
                lemma_packed_fits(start, order, m);
                lemma_packed_prefix(start, order, m, m);
                lemma_width_bounds(self.width, self.max_height, self.height);
            }
            let entry: Entry = match self.entries.get(&key) {
                Some(entry) => *entry,
                None => Entry { curves: None, last_used: 0 },
            };
            let ghost moves = relocations@;
            let curves: Option<GlyphCurves> = match entry.curves {
                None => None,
                Some(c) => {
                    if c.count == 0 {
                        Some(GlyphCurves { first: 0, ..c })
                    } else {
                        assert(start.has_block(key));
                        // Whole blocks move, band tables and all; the offsets inside them
                        // are relative, so only the base needs rewriting.
                        let from: usize = c.first as usize * FLOATS_PER_TEXEL;
                        let to: usize = from + c.texels as usize * FLOATS_PER_TEXEL;
                        let moved: u32 = (packed.len() / FLOATS_PER_TEXEL) as u32;
                        let replaced: Option<u32> = relocations.insert(c.first, moved);
                        let ghost before = packed@;
                        packed.extend_from_slice(
                            vstd::slice::slice_subrange(self.data.as_slice(), from, to),
                        );
                        assert(packed@ =~= before + start.block_of(key));
                        Some(GlyphCurves { first: moved, ..c })
                    }
                },
            };
            let moved_entry = Entry { curves, last_used: entry.last_used };
            assert(moved_entry == start.moved(order, m));
            let ghost kept_before = kept@;
            let replaced: Option<Entry> = kept.insert(key, moved_entry);
            proof {
                assert(order.take(m + 1) =~= order.take(m).push(key));
                assert(kept@.dom() =~= order.take(m + 1).to_set()) by {
                    lemma_push_to_set(order.take(m), key);
                }
                assert forall|j: int| 0 <= j < m + 1 implies kept@[#[trigger] order[j]]
                    == start.moved(order, j) by {
                    if j < m {
                        assert(order[j] != order[m]);
                    }
                }
                assert forall|j: int|
                    0 <= j < m + 1 && start.has_block(
                        #[trigger] order[j],
                    ) implies relocations@.contains_key(start.curves_of(order[j]).first)
                    && relocations@[start.curves_of(order[j]).first] == start.packed(
                    order,
                    j,
                ).len() as int / 4 by {
                    if j < m && start.has_block(order[m]) {
                        assert(order[j] != order[m]);
                        assert(start.has_block(order[j]) && start.has_block(order[m]));
                    }
                }
                assert forall|first: u32| #[trigger]
                    relocations@.contains_key(first) implies exists|j: int|
                    0 <= j < m + 1 && start.has_block(#[trigger] order[j]) && start.curves_of(
                        order[j],
                    ).first == first by {
                    if moves.contains_key(first) {
                        let j = choose|j: int|
                            0 <= j < m && start.has_block(#[trigger] order[j]) && start.curves_of(
                                order[j],
                            ).first == first;
                        assert(start.has_block(order[j]));
                    } else {
                        assert(start.has_block(order[m]));
                    }
                }
            }
            i = i + 1;
        }
        assert(order.take(i - half) =~= order);
        self.needs_compact = false;
        self.entries = kept;
        self.relocations = relocations;
        self.data = packed;
        self.uploaded = 0;
        self.generation = self.generation + 1;
        self.layout_generation = self.layout_generation + 1;
        assert(start.compacted(order, self@));
        proof {
            lemma_compaction_keeps_blocks(start, order, self@);
        }
    }

    /// Doubles the height (repeatedly, up to the cap) until `needed` texels fit, and
    /// schedules a full upload. Says no, and leaves everything as it is, where the cap is
    /// too small.
    fn grow_to_fit(&mut self, needed: usize) -> (grown: bool)
        requires
            old(self).wf(),
            old(self)@.generation < u64::MAX,
            old(self)@.capacity() < needed,
        ensures
            ({
                let state = old(self)@;
                let height = grown_height(
                    state.width,
                    state.height,
                    state.max_height,
                    needed as int,
                );
                &&& grown == (needed <= state.width * height)
                &&& grown ==> height != state.height
                &&& grown ==> final(self)@ == (StoreState {
                    height,
                    uploaded: 0,
                    generation: state.generation + 1,
                    ..state
                })
                &&& !grown ==> final(self)@ == state
            }),
    {
        let mut height: u32 = self.height;
        let ghost want = grown_height(
            self@.width,
            self@.height,
            self@.max_height,
            needed as int,
        );
        proof {
            lemma_width_bounds(self.width, self.max_height, self.height);
        }
        while height < self.max_height && texel_capacity(self.width, height) < needed
            invariant
                0 < height <= self.max_height,
                0 < self.width,
                self.width * self.max_height <= MAX_TEXELS,
                self.width * height <= MAX_TEXELS,
                self.max_height <= MAX_TEXELS,
                want == grown_height(
                    self.width as int,
                    height as int,
                    self.max_height as int,
                    needed as int,
                ),
            decreases self.max_height - height,
        {
            height = if 2 * height < self.max_height {
                2 * height
            } else {
                self.max_height
            };
            proof {
                lemma_width_bounds(self.width, self.max_height, height);
            }
        }
        if texel_capacity(self.width, height) < needed {
            return false;
        }
        self.height = height;
        // Nothing of the old texture survives; the mirror is uploaded whole.
        self.uploaded = 0;
        self.generation = self.generation + 1;
        true
    }

    /// Stamps a glyph as used on `frame` without looking anything up.
    pub fn touch(&mut self, key: &GlyphKey, frame: u64)
        requires
            old(self).wf(),
        ensures
            final(self).wf(),
            final(self)@ == old(self)@.touched(key.number() as u128, frame),
    {
        let id: u128 = key.pack();
        let found: Option<Entry> = match self.entries.get(&id) {
            Some(entry) => Some(*entry),
            None => None,
        };
        if let Some(entry) = found {
            let before: Option<Entry> = self.entries.insert(
                id,
                Entry { curves: entry.curves, last_used: frame },
            );
            proof {
                lemma_touched(old(self)@, id, frame);
            }
        }
    }

    /// The rows that hold curve data added since the last call, the last one filled up with
    /// zeros; nothing where nothing was added. They start at the row of the first new half,
    /// which new curves may share with old ones.
    pub fn flush(&mut self) -> (upload: Option<RowUpload>)
        requires
            old(self).wf(),
        ensures
            final(self).wf(),
            final(self)@ == (StoreState {
                uploaded: if old(self)@.uploaded < old(self)@.data.len() {
                    old(self)@.data.len() as int
                } else {
                    old(self)@.uploaded
                },
                ..old(self)@
            }),
            upload is Some <==> old(self)@.uploaded < old(self)@.data.len(),
            upload matches Some(u) ==> are_due(old(self)@, u),
    {
        if self.data.len() <= self.uploaded {
            return None;
        }
        proof {
            lemma_width_bounds(self.width, self.max_height, self.height);
            lemma_rows(
                self.width as int,
                self.height as int,
                self.data@.len() as int,
                self.uploaded as int,
            );
        }
        let row: usize = floats_per_row(self.width);
        let total_rows: u32 = ((self.data.len() + row - 1) / row) as u32;
        // Restart from the row holding the first new half, refreshing the partly filled row
        // that new curves may share with old ones.
        let start_row: u32 = (self.uploaded / row) as u32;
        let start: usize = start_row as usize * row;
        let mut halves: Vec<u16> = vstd::slice::slice_to_vec(
            vstd::slice::slice_subrange(self.data.as_slice(), start, self.data.len()),
        );
        let ghost part = halves@;
        halves.resize((total_rows - start_row) as usize * row, 0);
        proof {
            assert(start_row * (4 * self@.width) == start);
            assert forall|i: int| 0 <= i < halves@.len() implies #[trigger] halves@[i] == (if start
                + i < self.data@.len() {
                self.data@[start + i]
            } else {
                0
            }) by {
                if i < part.len() {
                    assert(halves@.subrange(0, part.len() as int)[i] == halves@[i]);
                    assert(part[i] == self.data@[start + i]);
                }
            }
        }
        self.uploaded = self.data.len();
        assert(forall|key: u128| #[trigger] self@.has_block(key) ==> old(self)@.has_block(key));
        Some(RowUpload { start_row, rows: total_rows - start_row, halves })
    }

    /// True once an allocation has failed at the cap: glyphs fall back to bitmaps until the
    /// next frame edge compacts the store.
    pub fn overflowed(&self) -> (yes: bool)
        ensures
            yes == self@.needs_compact,
    {
        self.needs_compact
    }

    /// Bytes of packed curve data, and bytes the texture occupies.
    pub fn memory(&self) -> (bytes: (usize, usize))
        requires
            self.wf(),
        ensures
            bytes.0 == 2 * self@.data.len(),
            bytes.1 == 8 * self@.capacity(),
    {
        proof {
            lemma_width_bounds(self.width, self.max_height, self.height);
        }
        (
            self.data.len() / FLOATS_PER_TEXEL * BYTES_PER_TEXEL,
            texel_capacity(self.width, self.height) * BYTES_PER_TEXEL,
        )
    }
}

proof fn lemma_rows(width: int, height: int, len: int, uploaded: int)
    requires
        0 < width <= MAX_TEXELS,
        0 < height <= MAX_TEXELS,
        width * height <= MAX_TEXELS,
        0 <= uploaded < len <= 4 * (width * height),
    ensures
        ({
            let row = 4 * width;
            let first = uploaded / row;
            let total = (len + row - 1) / row;
            &&& 0 <= first < total <= height
            &&& 0 <= first * row <= uploaded
            &&& len <= total * row
            &&& (total - first) * row == total * row - first * row
            &&& total * row <= 4 * (width * height)
        }),
{
    let row = 4 * width;
    let first = uploaded / row;
    let total = (len + row - 1) / row;
    vstd::arithmetic::div_mod::lemma_fundamental_div_mod(uploaded, row);
    vstd::arithmetic::div_mod::lemma_fundamental_div_mod(len + row - 1, row);
    vstd::arithmetic::div_mod::lemma_mod_bound(uploaded, row);
    vstd::arithmetic::div_mod::lemma_mod_bound(len + row - 1, row);
    let r1 = uploaded % row;
    let r2 = (len + row - 1) % row;
    vstd::arithmetic::mul::lemma_mul_is_commutative(row, first);
    vstd::arithmetic::mul::lemma_mul_is_commutative(row, total);
    assert(0 <= first) by {
        vstd::arithmetic::div_mod::lemma_div_pos_is_pos(uploaded, row);
    }
    assert(first < total) by (nonlinear_arith)
        requires
            first * row + r1 == uploaded,
            total * row + r2 == len + row - 1,
            0 <= r1,
            r2 < row,
            uploaded < len,
            0 < row,
    ;
    assert(total <= height) by (nonlinear_arith)
        requires
            total * row + r2 == len + row - 1,
            0 <= r2,
            len <= 4 * (width * height),
            row == 4 * width,
            0 < width,
    ;
    assert(total * row <= 4 * (width * height)) by (nonlinear_arith)
        requires
            total <= height,
            row == 4 * width,
            0 < width,
    ;
    assert(0 <= first * row) by (nonlinear_arith)
        requires
            0 <= first,
            0 < row,
    ;
    assert((total - first) * row == total * row - first * row) by (nonlinear_arith);
}

proof fn lemma_push_to_set(s: Seq<u128>, x: u128)
    ensures
        s.push(x).to_set() == s.to_set().insert(x),
{
    assert forall|k: u128| s.push(x).to_set().contains(k) <==> s.to_set().insert(x).contains(k) by {
        if s.to_set().contains(k) {
            assert(s.contains(k));
            let i = choose|i: int| 0 <= i < s.len() && s[i] == k;
            assert(s.push(x)[i] == k);
        }
        if k == x {
            assert(s.push(x)[s.len() as int] == k);
        }
    }
    assert(s.push(x).to_set() =~= s.to_set().insert(x));
}

proof fn lemma_survivors(state: StoreState, ages: Seq<(u64, u128)>, half: int)
    requires
        lists_ages(ages, state.entries),
        half == ages.len() / 2,
        forall|i: int, j: int|
            0 <= i < j < ages.len() ==> (#[trigger] ages[i]).0 < (#[trigger] ages[j]).0 || (
            ages[i].0 == ages[j].0 && ages[i].1 <= ages[j].1),
    ensures
        state.survivors(keys_of(ages).skip(half)),
{
    let keys = keys_of(ages);
    let order = keys.skip(half);
    keys.unique_seq_to_set();
    assert forall|i: int, j: int| 0 <= i < order.len() && 0 <= j < order.len() && i != j implies
        order[i] != order[j] by {
        assert(keys[i + half] != keys[j + half]);
    }
    assert forall|i: int| 0 <= i < order.len() implies state.entries.contains_key(
        #[trigger] order[i],
    ) by {
        assert(state.entries.contains_key(ages[i + half].1));
    }
    assert forall|key: u128, i: int|
        #![trigger state.entries.contains_key(key), order[i]]
        state.entries.contains_key(key) && !order.contains(key) && 0 <= i
            < order.len() implies state.entries[key].last_used
        <= state.entries[order[i]].last_used by {
        assert(keys.to_set().contains(key));
        assert(keys.contains(key));
        let p = choose|p: int| 0 <= p < keys.len() && keys[p] == key;
        if p >= half {
            assert(order[p - half] == key);
            assert(order.contains(key));
        }
        assert(ages[p].0 <= ages[i + half].0);
        assert(state.entries[ages[p].1].last_used == ages[p].0);
        assert(state.entries[ages[i + half].1].last_used == ages[i + half].0);
    }
}

proof fn lemma_width_bounds(width: u32, max_height: u32, height: u32)
    requires
        0 < width,
        0 < height <= max_height,
        width * max_height <= MAX_TEXELS,
    ensures
        0 <= width * height <= MAX_TEXELS,
        max_height <= MAX_TEXELS,
        width <= MAX_TEXELS,
{
    assert(0 <= width * height <= MAX_TEXELS) by (nonlinear_arith)
        requires
            0 < width,
            0 < height <= max_height,
            width * max_height <= MAX_TEXELS,
    ;
    assert(max_height <= MAX_TEXELS) by (nonlinear_arith)
        requires
            0 < width,
            0 < max_height,
            width * max_height <= MAX_TEXELS,
    ;
    assert(width <= MAX_TEXELS) by (nonlinear_arith)
        requires
            0 < width,
            0 < max_height,
            width * max_height <= MAX_TEXELS,
    ;
}

pub(crate) proof fn lemma_touched(state: StoreState, key: u128, frame: u64)
    requires
        state.valid(),
    ensures
        state.touched(key, frame).valid(),
{
    let after = state.touched(key, frame);
    assert forall|k: u128| after.has_block(k) implies #[trigger] state.has_block(k)
        && after.curves_of(k) == state.curves_of(k) by {}
    assert forall|k: u128| #[trigger] after.has_block(k) implies state.has_block(k) by {}
}

/// A texture grows no further than it has to: where it grows at all, it was too low at half
/// its new height or more.
#[verifier::spinoff_prover]
pub proof fn lemma_grows_by_need(width: int, height: int, max_height: int, needed: int)
    requires
        0 < width,
        0 < height <= max_height,
    ensures
        ({
            let grown = grown_height(width, height, max_height, needed);
            &&& height <= grown <= max_height
            &&& width * height >= needed ==> grown == height
            &&& grown < max_height ==> width * grown >= needed
            &&& grown > height ==> exists|h: int|
                height <= h < grown <= 2 * h && #[trigger] (width * h) < needed
        }),
    decreases max_height - height,
{
    if height < max_height && width * height < needed {
        let next = if 2 * height < max_height {
            2 * height
        } else {
            max_height
        };
        lemma_grows_by_need(width, next, max_height, needed);
        let grown = grown_height(width, height, max_height, needed);
        if grown == next {
            assert(height <= height < grown <= 2 * height && width * height < needed);
        } else {
            let h = choose|h: int| next <= h < grown <= 2 * h && #[trigger] (width * h) < needed;
            assert(height <= h < grown <= 2 * h && width * h < needed);
        }
    }
}

/// There is room for a block exactly where the texture at its greatest height has it.
#[verifier::spinoff_prover]
pub proof fn lemma_room(state: StoreState, block: Seq<u16>)
    requires
        state.valid(),
        block.len() % 8 == 0,
    ensures
        state.has_room(block) <==> state.data.len() + block.len() <= 4 * (state.width
            * state.max_height),
        state.data.len() + block.len() <= 4 * (state.width * state.height)
            ==> state.fitting_height(block) == state.height,
        state.height <= state.fitting_height(block) <= state.max_height,
{
    let needed = (state.data.len() + block.len()) as int / 4;
    assert(4 * needed == state.data.len() + block.len());
    lemma_grown_height(state.width, state.height, state.max_height, needed);
    let fit = state.fitting_height(block);
    assert(state.width * fit <= state.width * state.max_height) by (nonlinear_arith)
        requires
            fit <= state.max_height,
            0 < state.width,
    ;
    assert(state.width * state.height <= state.width * state.max_height) by (nonlinear_arith)
        requires
            state.height <= state.max_height,
            0 < state.width,
    ;
}

/// An outline that is stored is read back: its block stands behind all that was stored
/// before, half for half, and what is kept of it says where that is, how many curves and
/// masters it has, and how they are laid out. A taller texture is uploaded from its start,
/// and counts as another one; one that stays keeps what it holds.
#[verifier::spinoff_prover]
pub proof fn lemma_stored_reads_back(state: StoreState, key: u128, outline: OutlineState)
    requires
        state.valid(),
        !state.entries.contains_key(key),
        outline.valid(),
        outline.a.len() > 0,
        state.data.len() + outline.block(state.least).len() <= 4 * (state.width
            * state.max_height),
    ensures
        ({
            let after = state.offered(key, Some(outline));
            let c = after.curves_of(key);
            &&& after.has_block(key)
            &&& after.block_of(key) == outline.block(state.least)
            &&& after.data.take(state.data.len() as int) == state.data
            &&& 4 * c.first == state.data.len()
            &&& 4 * c.texels == outline.block(state.least).len()
            &&& c.count == outline.a.len()
            &&& c.bbox == outline.bbox
            &&& c.dual_master == (outline.b is Some)
            &&& outline.b is Some ==> c.weight_t == outline.weight_t
            &&& c.banded == outline.banded(state.least)
            &&& c.record_texels == outline.record_texels(state.least)
            &&& after.entries[key].last_used == state.frame
            &&& after.frame == state.frame
            &&& after.needs_compact == state.needs_compact
            &&& after.height != state.height ==> after.uploaded == 0 && after.generation
                == state.generation + 1
            &&& after.height == state.height ==> after.uploaded == state.uploaded
                && after.generation == state.generation
            &&& after.layout_generation == state.layout_generation
            &&& forall|other: u128|
                other != key ==> (#[trigger] after.entries.contains_key(other)
                    == state.entries.contains_key(other)) && (state.entries.contains_key(other)
                    ==> after.entries[other] == state.entries[other])
        }),
{
    let block = outline.block(state.least);
    lemma_block_len(outline, state.least);
    lemma_room(state, block);
    let after = state.offered(key, Some(outline));
    let c = after.curves_of(key);
    assert(state.width * state.max_height <= MAX_TEXELS);
    assert(4 * (state.data.len() as int / 4) == state.data.len());
    assert(after.data.subrange(state.data.len() as int, after.data.len() as int) =~= block);
    assert(after.data.take(state.data.len() as int) =~= state.data);
}

/// A glyph that finds no room is not stored: nothing changes but that the store is to be
/// compacted. A blank glyph and one without an outline take no room; the first counts as
/// drawn with nothing, the second as not to be drawn from curves.
#[verifier::spinoff_prover]
pub proof fn lemma_not_stored(state: StoreState, key: u128, outline: OutlineState)
    requires
        state.valid(),
        !state.entries.contains_key(key),
        outline.valid(),
    ensures
        outline.a.len() > 0 && state.data.len() + outline.block(state.least).len() > 4 * (
        state.width * state.max_height) ==> state.offered(key, Some(outline)) == (StoreState {
            needs_compact: true,
            ..state
        }),
        state.offered(key, None).data == state.data,
        state.offered(key, None).entries.contains_key(key),
        state.offered(key, None).entries[key].curves is None,
        state.offered(key, None).entries[key].last_used == state.frame,
        outline.a.len() == 0 ==> {
            let after = state.offered(key, Some(outline));
            &&& after.data == state.data
            &&& after.height == state.height
            &&& after.entries.contains_key(key)
            &&& after.entries[key].curves matches Some(c) && c.count == 0 && c.texels == 0
            &&& after.entries[key].last_used == state.frame
        },
{
    if outline.a.len() > 0 {
        lemma_block_len(outline, state.least);
        lemma_room(state, outline.block(state.least));
    } else {
        lemma_room(state, Seq::<u16>::empty());
        assert(state.data + Seq::<u16>::empty() =~= state.data);
    }
}

/// Which glyphs get band tables: those with more curves than the least, where the block of
/// one master has no more texels than a half counts exactly.
pub proof fn lemma_banded_when(outline: OutlineState, least: int)
    requires
        outline.valid(),
    ensures
        outline.banded(least) <==> outline.a.len() > least && (outline.table matches Some(table)
            && bands::banded_lanes(outline.a, None, outline.contours, table).len() <= 4 * 2048),
        outline.banded(least) ==> outline.block(least) == bands::banded_lanes(
            outline.a,
            outline.b,
            outline.contours,
            outline.table->0,
        ),
        !outline.banded(least) ==> outline.block(least) == bands::flat_lanes_of(
            outline.a,
            outline.b,
        ),
{
    if let Some(table) = outline.table {
        bands::lemma_fits_halves(outline.a, outline.contours, table);
    }
}

/// The six coordinates of a curve stand in a block, from a place on.
pub open spec fn stands_at(block: Seq<u16>, at: int, curve: Curve) -> bool {
    &&& block[at] == curve.x0 && block[at + 1] == curve.y0
    &&& block[at + 2] == curve.x1 && block[at + 3] == curve.y1
    &&& block[at + 4] == curve.x2 && block[at + 5] == curve.y2
}

/// Whatever the layout, the second master's records are a fixed distance behind the first's:
/// the curves of a block are read back from it, those of the second master `record_texels`
/// texels further on.
#[verifier::spinoff_prover]
pub proof fn lemma_masters_apart(outline: OutlineState, least: int, i: int)
    requires
        outline.valid(),
        0 <= i < outline.a.len(),
        0 <= least,
        bands::contours_chain(outline.a, outline.contours),
        outline.b matches Some(b) ==> bands::contours_chain(b, outline.contours),
    ensures
        exists|at: int|
            {
                &&& #[trigger] stands_at(outline.block(least), at, outline.a[i])
                &&& outline.b matches Some(b) ==> stands_at(
                    outline.block(least),
                    at + 4 * outline.record_texels(least),
                    b[i],
                )
            },
{
    let block = outline.block(least);
    if outline.banded(least) {
        let table = outline.table->0;
        bands::lemma_banded_points(outline.a, outline.b, outline.contours, table, i);
        let at = 4 * (bands::records_at(table) + bands::texel_at(outline.contours, i));
        assert(stands_at(block, at, outline.a[i]));
    } else {
        bands::lemma_flat_readback(outline.a, outline.b, i);
        assert(stands_at(block, 8 * i, outline.a[i]));
    }
}

/// Stamping a glyph changes when it was last used and nothing else; one that is not stored
/// stays so.
pub proof fn lemma_touching_stamps(
    state: StoreState,
    key: u128,
    frame: u64,
    other: u128,
)
    ensures
        ({
            let after = state.touched(key, frame);
            &&& after.entries.contains_key(other) == state.entries.contains_key(other)
            &&& state.entries.contains_key(other) ==> after.entries[other].curves
                == state.entries[other].curves && after.entries[other].last_used == (if other
                == key {
                frame
            } else {
                state.entries[other].last_used
            })
            &&& after.data == state.data
            &&& after.uploaded == state.uploaded
            &&& after.generation == state.generation
            &&& after.layout_generation == state.layout_generation
            &&& after.height == state.height
            &&& after.needs_compact == state.needs_compact
            &&& after.frame == state.frame
        }),
{
}

/// A compaction drops half of the glyphs, rounded down, none of which was used later than
/// one that stays. Of a glyph that stays everything is kept but where its block starts,
/// which is recorded for each; of no other block a new place is recorded. What is left is
/// to be uploaded anew.
#[verifier::spinoff_prover]
pub proof fn lemma_compaction_drops_half(
    state: StoreState,
    order: Seq<u128>,
    after: StoreState,
    key: u128,
    other: u128,
)
    requires
        state.valid(),
        state.survivors(order),
        state.compacted(order, after),
    ensures
        after.entries.dom().len() == state.entries.dom().len() - state.entries.dom().len() / 2,
        after.entries.contains_key(key) ==> {
            &&& state.entries.contains_key(key)
            &&& after.entries[key].last_used == state.entries[key].last_used
            &&& after.entries[key].curves is None <==> state.entries[key].curves is None
            &&& after.entries[key].curves matches Some(c) ==> c == (GlyphCurves {
                first: c.first,
                ..state.entries[key].curves->0
            })
        },
        state.entries.contains_key(other) && !after.entries.contains_key(other)
            && after.entries.contains_key(key) ==> state.entries[other].last_used
            <= state.entries[key].last_used,
        state.has_block(key) ==> (after.entries.contains_key(key)
            <==> after.relocations.contains_key(state.curves_of(key).first)),
        state.has_block(key) && after.entries.contains_key(key)
            ==> after.relocations[state.curves_of(key).first] == after.curves_of(key).first,
        after.uploaded == 0,
        !after.needs_compact,
        after.generation == state.generation + 1,
        after.layout_generation == state.layout_generation + 1,
        after.data.len() <= state.data.len(),
{
    lemma_compaction_keeps_blocks(state, order, after);
    order.unique_seq_to_set();
    lemma_packed_fits(state, order, order.len() as int);
    assert(after.entries.contains_key(key) <==> order.contains(key)) by {
        assert(order.to_set().contains(key) <==> order.contains(key));
    }
    assert(after.entries.contains_key(other) <==> order.contains(other)) by {
        assert(order.to_set().contains(other) <==> order.contains(other));
    }
    if order.contains(key) {
        let i = choose|i: int| 0 <= i < order.len() && order[i] == key;
        assert(after.entries[order[i]] == state.moved(order, i));
        assert(state.entries.contains_key(order[i]));
        if state.entries.contains_key(other) && !order.contains(other) {
            assert(state.entries[other].last_used <= state.entries[order[i]].last_used);
        }
    }
    if state.has_block(key) && after.relocations.contains_key(state.curves_of(key).first) {
        let first = state.curves_of(key).first;
        let i = choose|i: int|
            0 <= i < order.len() && state.has_block(#[trigger] order[i]) && state.curves_of(
                order[i],
            ).first == first;
        if order[i] != key {
            assert(state.has_block(order[i]) && state.has_block(key));
        }
    }
}

} // verus!
