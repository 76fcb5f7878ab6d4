//! Layered color glyphs.
//!
//! A color glyph of a COLR table of version 0 is not a picture: it is a stack of ordinary
//! outline glyphs, each painted in one flat color out of the font's CPAL palette. Given a
//! font file and a base glyph, this module hands back the layer list, resolved against the
//! first palette, and caches it. Version 1 adds gradients, transforms and compositing
//! modes: a font of that version is reported as having no layers.
use std::collections::HashMap;
use ttf_parser::{cpal, RawFace, Tag};
use vstd::prelude::*;

verus! {

broadcast use vstd::std_specs::hash::group_hash_axioms;

/// The tag of the table of layers, "COLR".
pub const COLR: u32 = 0x434F_4C52;

/// The tag of the table of palettes, "CPAL".
pub const CPAL: u32 = 0x4350_414C;

/// The palette entry reserved for "paint this layer in the text color".
pub const FOREGROUND_PALETTE_INDEX: u16 = 0xFFFF;

/// The palette that layers resolve against.
pub const PALETTE: u16 = 0;

/// The bytes of a base glyph record.
pub const BASE_RECORD: usize = 6;

/// The bytes of a layer record.
pub const LAYER_RECORD: usize = 4;

/// The most bytes of a font file, or of a table: behind them, `ttf_parser` stops counting
/// offsets.
pub const MAX_FILE: usize = 0xFFE0_0000;

/// The tag that a collection of faces starts with, "ttcf".
pub const COLLECTION: u32 = 0x7474_6366;

/// The most faces that a collection may say it holds: the offsets of more would reach
/// behind what `ttf_parser` counts.
pub const MAX_FACES: u32 = 0x3FFF_FFFC;

/// Straight red, green, blue and alpha, as a palette stores them.
pub type Rgba = (u8, u8, u8, u8);

/// The big-endian number in two bytes.
pub open spec fn be16(data: Seq<u8>, at: int) -> int {
    data[at] * 0x100 + data[at + 1]
}

/// The big-endian number in four bytes.
pub open spec fn be32(data: Seq<u8>, at: int) -> int {
    be16(data, at) * 0x1_0000 + be16(data, at + 2)
}

/// Two bytes at `at`, read as a big-endian number, where the data goes that far.
pub fn read_u16(data: &[u8], at: usize) -> (n: Option<u16>)
    ensures
        n is Some <==> at + 2 <= data@.len(),
        n matches Some(v) ==> v == be16(data@, at as int),
{
    if at <= data.len() && data.len() - at >= 2 {
        Some(data[at] as u16 * 0x100 + data[at + 1] as u16)
    } else {
        None
    }
}

/// Four bytes at `at`, read as a big-endian number, where the data goes that far.
pub fn read_u32(data: &[u8], at: usize) -> (n: Option<u32>)
    ensures
        n is Some <==> at + 4 <= data@.len(),
        n matches Some(v) ==> v == be32(data@, at as int),
{
    if at <= data.len() && data.len() - at >= 4 {
        Some(
            data[at] as u32 * 0x100_0000 + data[at + 1] as u32 * 0x1_0000 + data[at + 2] as u32
                * 0x100 + data[at + 3] as u32,
        )
    } else {
        None
    }
}

/// A collection that says it holds more faces than its file has room for, by far.
pub open spec fn overstated(file: Seq<u8>) -> bool {
    12 <= file.len() && be32(file, 0) == COLLECTION && be32(file, 8) > MAX_FACES
}

fn is_overstated(file: &[u8]) -> (yes: bool)
    ensures
        yes == overstated(file@),
{
    match (read_u32(file, 0), read_u32(file, 8)) {
        (Some(tag), Some(faces)) => tag == COLLECTION && faces > MAX_FACES,
        _ => false,
    }
}

/// What a table of a font file holds: `RawFace::parse` and `RawFace::table` of `ttf_parser`.
pub uninterp spec fn sfnt_table(file: Seq<u8>, index: u32, tag: u32) -> Option<Seq<u8>>;

/// `RawFace::parse` and `RawFace::table` of `ttf_parser`: the bytes of a table of one face
/// in a font file, nothing where the file cannot be read or the face lacks the table. The
/// bytes are a part of the file; which part is left to that crate, which insists, in a
/// build with debug assertions, that no offset it computes passes 32 bits.
#[verifier::external_body]
fn table<'a>(file: &'a [u8], index: u32, tag: u32) -> (found: Option<&'a [u8]>)
    requires
        file@.len() <= MAX_FILE,
        !overstated(file@),
    ensures
        match found {
            Some(bytes) => sfnt_table(file@, index, tag) == Some(bytes@) && bytes@.len()
                <= file@.len(),
            None => sfnt_table(file@, index, tag) is None,
        },
{
    let face = RawFace::parse(file, index).ok()?;
    face.table(Tag(tag))
}

/// The number of palettes a CPAL table says it holds.
pub open spec fn palette_count(cpal: Seq<u8>) -> int {
    be16(cpal, 4)
}

/// The number of colors a CPAL table says it holds.
pub open spec fn color_count(cpal: Seq<u8>) -> int {
    be16(cpal, 6)
}

/// A CPAL table of a version in use, with at least one palette, that holds as many palettes
/// and colors as it says.
pub open spec fn has_palettes(cpal: Seq<u8>) -> bool {
    &&& 12 <= cpal.len()
    &&& be16(cpal, 0) <= 1
    &&& 0 < palette_count(cpal)
    &&& 12 + 2 * palette_count(cpal) <= cpal.len()
    &&& be32(cpal, 8) + 4 * color_count(cpal) <= cpal.len()
}

/// A color of a CPAL table: the palette says where its colors start, and they are stored
/// blue first.
pub open spec fn palette_color(cpal: Seq<u8>, palette: u16, entry: u16) -> Option<Rgba> {
    let color = be16(cpal, 12 + 2 * palette) + entry;
    let at = be32(cpal, 8) + 4 * color;
    if has_palettes(cpal) && palette < palette_count(cpal) && color < color_count(cpal) {
        Some((cpal[at + 2], cpal[at + 1], cpal[at], cpal[at + 3]))
    } else {
        None
    }
}

/// `cpal::Table::parse` of `ttf_parser`: whether a CPAL table can be read. It can if it is
/// of version 0 or 1, has a palette, and is as long as its counts say. In a build with
/// debug assertions no offset may pass 32 bits.
#[verifier::external_body]
fn palettes_readable(cpal: &[u8]) -> (yes: bool)
    requires
        cpal@.len() <= MAX_FILE,
    ensures
        yes == has_palettes(cpal@),
{
    cpal::Table::parse(cpal).is_some()
}

/// `cpal::Table::get` of `ttf_parser`, on the parsed table: a color of a palette as red,
/// green, blue and alpha, nothing where the table cannot be read or does not hold it.
#[verifier::external_body]
fn palette_entry(cpal: &[u8], palette: u16, entry: u16) -> (color: Option<Rgba>)
    requires
        cpal@.len() <= MAX_FILE,
    ensures
        color == palette_color(cpal@, palette, entry),
{
    let found = cpal::Table::parse(cpal)?.get(palette, entry)?;
    Some((found.red, found.green, found.blue, found.alpha))
}

/// One layer of a color glyph: an ordinary glyph id, and the flat color it is painted in.
#[derive(Clone, Copy, Debug, PartialEq, Eq)]
pub struct ColorLayer {
    /// The layer's glyph id, an outline glyph in the same face.
    pub glyph_id: u16,
    /// The color out of the palette, or nothing where the layer takes the text color.
    pub color: Option<Rgba>,
}

/// Where a glyph's layers start, and how many there are.
#[derive(Clone, Copy, Debug, PartialEq, Eq, Structural)]
pub struct BaseGlyph {
    pub first_layer: u16,
    pub num_layers: u16,
}

/// Where the base glyph record `i` of a COLR table starts.
pub open spec fn record_at(colr: Seq<u8>, i: int) -> int {
    be32(colr, 4) + i * BASE_RECORD
}

/// The glyph that a base glyph record is for.
pub open spec fn record_id(colr: Seq<u8>, i: int) -> int {
    be16(colr, record_at(colr, i))
}

/// The rest of a base glyph record, where the table goes that far.
pub open spec fn record(colr: Seq<u8>, i: int) -> Option<BaseGlyph> {
    let at = record_at(colr, i);
    if at + BASE_RECORD <= colr.len() {
        Some(
            BaseGlyph {
                first_layer: be16(colr, at + 2) as u16,
                num_layers: be16(colr, at + 4) as u16,
            },
        )
    } else {
        None
    }
}

/// The record a binary search among the records `lo..hi` ends at.
pub open spec fn searched(colr: Seq<u8>, glyph_id: u16, lo: int, hi: int) -> Option<BaseGlyph>
    decreases hi - lo,
{
    let mid = lo + (hi - lo) / 2;
    if lo >= hi || record_at(colr, mid) + 2 > colr.len() {
        None
    } else if glyph_id < record_id(colr, mid) {
        searched(colr, glyph_id, lo, mid)
    } else if glyph_id > record_id(colr, mid) {
        searched(colr, glyph_id, mid + 1, hi)
    } else {
        record(colr, mid)
    }
}

/// The number of base glyph records that a COLR table says it holds.
pub open spec fn record_count(colr: Seq<u8>) -> int {
    be16(colr, 2)
}

/// The base glyph record of a glyph.
pub open spec fn base_of(colr: Seq<u8>, glyph_id: u16) -> Option<BaseGlyph> {
    if 8 <= colr.len() {
        searched(colr, glyph_id, 0, record_count(colr))
    } else {
        None
    }
}

/// The records are all there, and sorted by glyph.
pub open spec fn records_sorted(colr: Seq<u8>) -> bool {
    &&& 8 <= colr.len()
    &&& record_at(colr, record_count(colr)) <= colr.len()
    &&& forall|i: int, j: int|
        0 <= i < j < record_count(colr) ==> #[trigger] record_id(colr, i) < #[trigger] record_id(
            colr,
            j,
        )
}

proof fn lemma_searched(colr: Seq<u8>, glyph_id: u16, lo: int, hi: int)
    requires
        records_sorted(colr),
        0 <= lo <= hi <= record_count(colr),
    ensures
        forall|i: int|
            lo <= i < hi && #[trigger] record_id(colr, i) == glyph_id ==> searched(
                colr,
                glyph_id,
                lo,
                hi,
            ) == record(colr, i),
        (forall|i: int| lo <= i < hi ==> #[trigger] record_id(colr, i) != glyph_id) ==> searched(
            colr,
            glyph_id,
            lo,
            hi,
        ) is None,
    decreases hi - lo,
{
    if lo < hi {
        let mid = lo + (hi - lo) / 2;
        assert(record_at(colr, mid) + BASE_RECORD <= record_at(colr, record_count(colr)));
        if glyph_id < record_id(colr, mid) {
            lemma_searched(colr, glyph_id, lo, mid);
        } else if glyph_id > record_id(colr, mid) {
            lemma_searched(colr, glyph_id, mid + 1, hi);
        }
    }
}

/// In a table whose records are sorted by glyph, every glyph with a record is found, with
/// that record, and no other glyph is.
pub proof fn lemma_sorted_records_are_found(colr: Seq<u8>, glyph_id: u16)
    requires
        records_sorted(colr),
    ensures
        forall|i: int|
            0 <= i < record_count(colr) && #[trigger] record_id(colr, i) == glyph_id ==> base_of(
                colr,
                glyph_id,
            ) == record(colr, i),
        (forall|i: int| 0 <= i < record_count(colr) ==> #[trigger] record_id(colr, i) != glyph_id)
            ==> base_of(colr, glyph_id) is None,
{
    lemma_searched(colr, glyph_id, 0, record_count(colr));
}

/// The base glyph record of a glyph, found by binary search: the records are sorted by
/// glyph.
pub fn base_glyph_record(colr: &[u8], glyph_id: u16) -> (base: Option<BaseGlyph>)
    ensures
        base == base_of(colr@, glyph_id),
{
    let count: u16 = match read_u16(colr, 2) {
        Some(n) => n,
        None => {
            return None;
        },
    };
    let records: usize = match read_u32(colr, 4) {
        Some(n) => n as usize,
        None => {
            return None;
        },
    };
    let total: usize = colr.len();
    let mut lo: u16 = 0;
    let mut hi: u16 = count;
    while lo < hi
        invariant
            8 <= colr@.len() == total,
            records == be32(colr@, 4),
            searched(colr@, glyph_id, lo as int, hi as int) == base_of(colr@, glyph_id),
        decreases hi - lo,
    {
        let mid: u16 = lo + (hi - lo) / 2;
        let at: usize = match records.checked_add(mid as usize * BASE_RECORD) {
            Some(at) => at,
            None => {
                return None;
            },
        };
        let id: u16 = match read_u16(colr, at) {
            Some(id) => id,
            None => {
                return None;
            },
        };
        if glyph_id < id {
            hi = mid;
        } else if glyph_id > id {
            lo = mid + 1;
        } else {
            let first_layer: u16 = match read_u16(colr, at + 2) {
                Some(n) => n,
                None => {
                    return None;
                },
            };
            return match read_u16(colr, at + 4) {
                Some(num_layers) => Some(BaseGlyph { first_layer, num_layers }),
                None => None,
            };
        }
    }
    None
}

/// Where a layer record starts.
pub open spec fn layer_at(colr: Seq<u8>, i: int) -> int {
    be32(colr, 8) + i * LAYER_RECORD
}

/// A layer, its palette index resolved. The reserved index takes the text color, and so
/// does an index that the palette does not hold: drawing the layer in the run's color at
/// least keeps its shape.
pub open spec fn layer(colr: Seq<u8>, cpal: Seq<u8>, i: int) -> ColorLayer {
    let entry = be16(colr, layer_at(colr, i) + 2) as u16;
    ColorLayer {
        glyph_id: be16(colr, layer_at(colr, i)) as u16,
        color: if entry == FOREGROUND_PALETTE_INDEX {
            None
        } else {
            palette_color(cpal, PALETTE, entry)
        },
    }
}

/// The layers of a base glyph, in the order they are painted. Nothing where there are none,
/// or where the record points outside the table.
pub open spec fn layers_of(colr: Seq<u8>, cpal: Seq<u8>, base: BaseGlyph) -> Option<
    Seq<ColorLayer>,
> {
    let end = base.first_layer + base.num_layers;
    if 14 <= colr.len() && base.num_layers != 0 && end <= be16(colr, 12) && layer_at(colr, end)
        <= colr.len() {
        Some(
            Seq::new(
                base.num_layers as nat,
                |i: int| layer(colr, cpal, base.first_layer + i),
            ),
        )
    } else {
        None
    }
}

/// The layers of a base glyph, with every palette index resolved. An empty list is not a
/// color glyph as far as drawing is concerned, so it comes back as nothing.
pub fn layer_list(colr: &[u8], cpal: &[u8], base: BaseGlyph) -> (layers: Option<Vec<ColorLayer>>)
    requires
        cpal@.len() <= MAX_FILE,
    ensures
        match layers {
            Some(list) => layers_of(colr@, cpal@, base) == Some(list@),
            None => layers_of(colr@, cpal@, base) is None,
        },
{
    let total: usize = colr.len();
    let offset: usize = match read_u32(colr, 8) {
        Some(n) => n as usize,
        None => {
            return None;
        },
    };
    let num_records: u16 = match read_u16(colr, 12) {
        Some(n) => n,
        None => {
            return None;
        },
    };
    let end: u16 = match base.first_layer.checked_add(base.num_layers) {
        Some(end) => end,
        None => {
            return None;
        },
    };
    if end > num_records || base.num_layers == 0 {
        return None;
    }
    let mut list: Vec<ColorLayer> = Vec::new();
    let mut i: u16 = base.first_layer;
    while i < end
        invariant
            cpal@.len() <= MAX_FILE,
            base.first_layer <= i <= end,
            end == base.first_layer + base.num_layers,
            end <= be16(colr@, 12),
            14 <= colr@.len() == total,
            offset == be32(colr@, 8),
            i == base.first_layer || layer_at(colr@, i as int) <= total,
            list@ == Seq::new(
                (i - base.first_layer) as nat,
                |k: int| layer(colr@, cpal@, base.first_layer + k),
            ),
        decreases end - i,
    {
        assert(layer_at(colr@, i + 1) <= layer_at(colr@, end as int));
        let at: usize = match offset.checked_add(i as usize * LAYER_RECORD) {
            Some(at) => at,
            None => {
                return None;
            },
        };
        let glyph_id: u16 = match read_u16(colr, at) {
            Some(id) => id,
            None => {
                return None;
            },
        };
        let entry: u16 = match read_u16(colr, at + 2) {
            Some(entry) => entry,
            None => {
                return None;
            },
        };
        let color: Option<Rgba> = if entry == FOREGROUND_PALETTE_INDEX {
            None
        } else {
            palette_entry(cpal, PALETTE, entry)
        };
        list.push(ColorLayer { glyph_id, color });
        i = i + 1;
        assert(list@ =~= Seq::new(
            (i - base.first_layer) as nat,
            |k: int| layer(colr@, cpal@, base.first_layer + k),
        ));
    }
    Some(list)
}

/// What the two tables of a font say of a glyph: whether the font has color glyphs that can
/// be drawn as layers, and the glyph's layers.
pub open spec fn layers_in_tables(colr: Seq<u8>, cpal: Seq<u8>, glyph_id: u16) -> (
    bool,
    Option<Seq<ColorLayer>>,
) {
    if colr.len() < 2 || be16(colr, 0) != 0 || !has_palettes(cpal) {
        (false, None)
    } else {
        match base_of(colr, glyph_id) {
            Some(base) => (true, layers_of(colr, cpal, base)),
            None => (true, None),
        }
    }
}

/// What a font file says of a glyph. The font has no color glyphs where the file lacks one
/// of the tables, or cannot hold the faces that it says it does.
pub open spec fn layers_in_file(file: Seq<u8>, index: u32, glyph_id: u16) -> (
    bool,
    Option<Seq<ColorLayer>>,
) {
    if overstated(file) {
        (false, None)
    } else {
        match (sfnt_table(file, index, COLR), sfnt_table(file, index, CPAL)) {
            (Some(colr), Some(cpal)) => layers_in_tables(colr, cpal, glyph_id),
            _ => (false, None),
        }
    }
}

/// What a layer list holds.
pub open spec fn listed(layers: Option<Vec<ColorLayer>>) -> Option<Seq<ColorLayer>> {
    match layers {
        Some(list) => Some(list@),
        None => None,
    }
}

/// Reads a glyph's layers out of a font's two tables.
pub fn read_tables(colr: &[u8], cpal: &[u8], glyph_id: u16) -> (found: (
    bool,
    Option<Vec<ColorLayer>>,
))
    requires
        cpal@.len() <= MAX_FILE,
    ensures
        (found.0, listed(found.1)) == layers_in_tables(colr@, cpal@, glyph_id),
{
    // Version 1 cannot be expressed as flat layers: the whole font is left alone rather
    // than drawn half right.
    match read_u16(colr, 0) {
        Some(0) => {},
        _ => {
            return (false, None);
        },
    }
    if !palettes_readable(cpal) {
        return (false, None);
    }
    match base_glyph_record(colr, glyph_id) {
        // A color font, just not for this glyph.
        None => (true, None),
        Some(base) => (true, layer_list(colr, cpal, base)),
    }
}

/// Reads a glyph's layers straight out of a font file: whether the font has color glyphs
/// that can be drawn as layers, and this glyph's layers.
pub fn read_layers(file: &[u8], index: u32, glyph_id: u16) -> (found: (
    bool,
    Option<Vec<ColorLayer>>,
))
    requires
        file@.len() <= MAX_FILE,
    ensures
        (found.0, listed(found.1)) == layers_in_file(file@, index, glyph_id),
{
    if is_overstated(file) {
        return (false, None);
    }
    match (table(file, index, COLR), table(file, index, CPAL)) {
        (Some(colr), Some(cpal)) => read_tables(colr, cpal, glyph_id),
        _ => (false, None),
    }
}

/// Layers come only with a font that has them, and a list is never empty.
pub proof fn lemma_layers_are_drawn(colr: Seq<u8>, cpal: Seq<u8>, glyph_id: u16)
    ensures
        ({
            let (usable, layers) = layers_in_tables(colr, cpal, glyph_id);
            layers matches Some(list) ==> usable && 0 < list.len()
        }),
{
}

/// A font and a glyph as one number.
pub open spec fn layer_key(font: u32, glyph_id: u16) -> u64 {
    (font * 0x1_0000 + glyph_id) as u64
}

/// Different glyphs have different numbers.
pub proof fn lemma_layer_key_injective(font_a: u32, glyph_a: u16, font_b: u32, glyph_b: u16)
    requires
        layer_key(font_a, glyph_a) == layer_key(font_b, glyph_b),
    ensures
        font_a == font_b,
        glyph_a == glyph_b,
{
}

/// What a [`ColrCache`] remembers.
#[verifier::ext_equal]
pub ghost struct ColrState {
    /// Whether a font has layered glyphs at all.
    pub fonts: Map<u32, bool>,
    /// The layer lists, by font and glyph.
    pub layers: Map<u64, Option<Seq<ColorLayer>>>,
}

impl ColrState {
    /// The glyph's layers can be told without reading the font.
    pub open spec fn knows(self, font: u32, glyph_id: u16) -> bool {
        self.layers.contains_key(layer_key(font, glyph_id)) || self.fonts.contains_key(font)
            && !self.fonts[font]
    }

    /// The layers that are remembered.
    pub open spec fn remembered(self, font: u32, glyph_id: u16) -> Option<Seq<ColorLayer>> {
        if self.layers.contains_key(layer_key(font, glyph_id)) {
            self.layers[layer_key(font, glyph_id)]
        } else {
            None
        }
    }

    /// The state once the font was read: whether it has layers at all is remembered, and
    /// the glyph's layers only if it does.
    pub open spec fn probed(
        self,
        font: u32,
        glyph_id: u16,
        found: (bool, Option<Seq<ColorLayer>>),
    ) -> ColrState {
        ColrState {
            fonts: self.fonts.insert(font, found.0),
            layers: if found.0 {
                self.layers.insert(layer_key(font, glyph_id), found.1)
            } else {
                self.layers
            },
        }
    }
}

/// Layer lists per font and glyph, read once and kept.
///
/// A font is probed the first time any of its glyphs is looked up, and one without layers
/// is remembered as such: otherwise every letter of every ordinary run would leave a "not
/// a color glyph" entry behind.
pub struct ColrCache {
    fonts: HashMap<u32, bool>,
    layers: HashMap<u64, Option<Vec<ColorLayer>>>,
}

impl View for ColrCache {
    type V = ColrState;

    closed spec fn view(&self) -> ColrState {
        ColrState {
            fonts: self.fonts@,
            layers: self.layers@.map_values(|layers: Option<Vec<ColorLayer>>| listed(layers)),
        }
    }
}

impl Default for ColrCache {
    /// A cache that knows no font.
    fn default() -> (cache: ColrCache)
        ensures
            cache@ == (ColrState { fonts: Map::empty(), layers: Map::empty() }),
    {
        let cache = ColrCache { fonts: HashMap::new(), layers: HashMap::new() };
        assert(cache@ =~= ColrState { fonts: Map::empty(), layers: Map::empty() });
        cache
    }
}

impl ColrCache {
    /// Whether the glyph's layers can be told without reading the font.
    pub fn knows(&self, font: u32, glyph_id: u16) -> (yes: bool)
        ensures
            yes == self@.knows(font, glyph_id),
    {
        let key: u64 = font as u64 * 0x1_0000 + glyph_id as u64;
        if self.layers.contains_key(&key) {
            return true;
        }
        match self.fonts.get(&font) {
            Some(usable) => !*usable,
            None => false,
        }
    }

    /// The layers of a color glyph, bottom to top, or nothing where the glyph is not one:
    /// it is then drawn the ordinary way.
    ///
    /// The face (a font file, and the index of the face in it) is only read where the cache
    /// does not know the answer; there is none where the font cannot be had.
    pub fn layers(&mut self, font: u32, glyph_id: u16, face: Option<(&[u8], u32)>) -> (found:
        Option<&Vec<ColorLayer>>)
        requires
            face matches Some((file, _)) ==> file@.len() <= MAX_FILE,
        ensures
            old(self)@.knows(font, glyph_id) ==> final(self)@ == old(self)@,
            !old(self)@.knows(font, glyph_id) ==> final(self)@ == old(self)@.probed(
                font,
                glyph_id,
                match face {
                    Some((file, index)) => layers_in_file(file@, index, glyph_id),
                    None => (false, None),
                },
            ),
            match found {
                Some(list) => final(self)@.remembered(font, glyph_id) == Some(list@),
                None => final(self)@.remembered(font, glyph_id) is None,
            },
    {
        let key: u64 = font as u64 * 0x1_0000 + glyph_id as u64;
        if !self.knows(font, glyph_id) {
            let (usable, layers) = match face {
                Some((file, index)) => read_layers(file, index, glyph_id),
                None => (false, None),
            };
            let before: Option<bool> = self.fonts.insert(font, usable);
            if usable {
                let before: Option<Option<Vec<ColorLayer>>> = self.layers.insert(key, layers);
            }
            assert(self@ =~= old(self)@.probed(
                font,
                glyph_id,
                match face {
                    Some((file, index)) => layers_in_file(file@, index, glyph_id),
                    None => (false, None),
                },
            ));
        }
        match self.layers.get(&key) {
            Some(Some(list)) => Some(list),
            _ => None,
        }
    }

    /// Whether a font has layered glyphs, nothing where it was not probed yet.
    pub fn font_is_colr(&self, font: u32) -> (usable: Option<bool>)
        ensures
            usable == (if self@.fonts.contains_key(font) {
                Some(self@.fonts[font])
            } else {
                None
            }),
    {
        match self.fonts.get(&font) {
            Some(usable) => Some(*usable),
            None => None,
        }
    }

    /// The number of glyphs whose layers, or lack of them, are remembered.
    pub fn len(&self) -> (len: usize)
        ensures
            len == self@.layers.dom().len(),
    {
        assert(self@.layers.dom() =~= self.layers@.dom());
        self.layers.len()
    }
}

/// A font without layers is probed once: it leaves no entry for the glyph, and every glyph
/// of it is known from then on.
pub proof fn lemma_plain_font_probed_once(
    state: ColrState,
    font: u32,
    glyph_id: u16,
    other: u16,
)
    ensures
        ({
            let after = state.probed(font, glyph_id, (false, None));
            &&& after.layers == state.layers
            &&& after.knows(font, other)
        }),
{
}

/// A glyph that was looked up is known from then on, with what was read.
pub proof fn lemma_probed_is_known(
    state: ColrState,
    font: u32,
    glyph_id: u16,
    colr: Seq<u8>,
    cpal: Seq<u8>,
)
    requires
        !state.knows(font, glyph_id),
    ensures
        ({
            let found = layers_in_tables(colr, cpal, glyph_id);
            let after = state.probed(font, glyph_id, found);
            &&& after.knows(font, glyph_id)
            &&& after.remembered(font, glyph_id) == found.1
        }),
{
}

/// How a table of layers is read. A base glyph record is six bytes, from where the table
/// says they start: the glyph, its first layer and its number of layers, two bytes each, the
/// higher one first.
pub proof fn lemma_record_bytes(colr: Seq<u8>, i: int)
    requires
        8 <= colr.len(),
        0 <= i,
    ensures
        ({
            let base = colr[4] * 0x100_0000 + colr[5] * 0x1_0000 + colr[6] * 0x100 + colr[7];
            let at = base + 6 * i;
            &&& record_count(colr) == colr[2] * 0x100 + colr[3]
            &&& record_id(colr, i) == colr[at] * 0x100 + colr[at + 1]
            &&& record(colr, i) is Some <==> at + 6 <= colr.len()
            &&& record(colr, i) matches Some(found) ==> found.first_layer == colr[at + 2] * 0x100
                + colr[at + 3] && found.num_layers == colr[at + 4] * 0x100 + colr[at + 5]
        }),
{
}

/// A layer record is four bytes, from where the table says they start: the glyph, and the
/// palette entry it is painted in. The last entry of all, and one that the first palette
/// does not hold, stand for the color of the text.
pub proof fn lemma_layer_bytes(colr: Seq<u8>, cpal: Seq<u8>, i: int)
    requires
        14 <= colr.len(),
        0 <= i,
    ensures
        ({
            let base = colr[8] * 0x100_0000 + colr[9] * 0x1_0000 + colr[10] * 0x100 + colr[11];
            let at = base + 4 * i;
            let entry = colr[at + 2] * 0x100 + colr[at + 3];
            let painted = layer(colr, cpal, i);
            &&& painted.glyph_id == colr[at] * 0x100 + colr[at + 1]
            &&& entry == 0xFFFF ==> painted.color is None
            &&& entry != 0xFFFF ==> painted.color == palette_color(cpal, 0, entry as u16)
        }),
{
}

/// The layers of a glyph are as many as its record says, from its first one on and in order;
/// there are none where the record says so, or points behind the layers of the table or
/// behind its end.
pub proof fn lemma_layers_in_order(colr: Seq<u8>, cpal: Seq<u8>, base: BaseGlyph, i: int)
    requires
        14 <= colr.len(),
    ensures
        ({
            let end = base.first_layer + base.num_layers;
            let from = colr[8] * 0x100_0000 + colr[9] * 0x1_0000 + colr[10] * 0x100 + colr[11];
            &&& layers_of(colr, cpal, base) is Some <==> base.num_layers > 0 && end <= colr[12]
                * 0x100 + colr[13] && from + 4 * end <= colr.len()
            &&& layers_of(colr, cpal, base) matches Some(list) ==> {
                &&& list.len() == base.num_layers
                &&& 0 <= i < list.len() ==> list[i] == layer(colr, cpal, base.first_layer + i)
            }
        }),
{
}

/// Only a table of layers of version 0 is used, with palettes that can be read; what is
/// found then is what the glyph's record says.
pub proof fn lemma_usable(colr: Seq<u8>, cpal: Seq<u8>, glyph_id: u16)
    requires
        2 <= colr.len(),
    ensures
        ({
            let found = layers_in_tables(colr, cpal, glyph_id);
            &&& found.0 <==> colr[0] == 0 && colr[1] == 0 && has_palettes(cpal)
            &&& !found.0 ==> found.1 is None
            &&& found.0 && base_of(colr, glyph_id) is None ==> found.1 is None
            &&& found.0 && base_of(colr, glyph_id) is Some ==> found.1 == layers_of(
                colr,
                cpal,
                base_of(colr, glyph_id)->0,
            )
        }),
{
}

/// Reading a font changes nothing of what is known of another.
pub proof fn lemma_probing_leaves_others(
    state: ColrState,
    font: u32,
    glyph_id: u16,
    found: (bool, Option<Seq<ColorLayer>>),
    other: u32,
    other_id: u16,
)
    requires
        other != font,
    ensures
        ({
            let after = state.probed(font, glyph_id, found);
            &&& after.knows(other, other_id) == state.knows(other, other_id)
            &&& after.remembered(other, other_id) == state.remembered(other, other_id)
            &&& after.fonts.contains_key(other) == state.fonts.contains_key(other)
            &&& state.fonts.contains_key(other) ==> after.fonts[other] == state.fonts[other]
            &&& after.fonts[font] == found.0
        }),
{
    if layer_key(font, glyph_id) == layer_key(other, other_id) {
        lemma_layer_key_injective(font, glyph_id, other, other_id);
    }
}

/// A file is read by its two tables, where it has both; otherwise, and where it overstates
/// its faces, it has no color glyphs.
pub proof fn lemma_file(file: Seq<u8>, index: u32, glyph_id: u16)
    ensures
        ({
            let found = layers_in_file(file, index, glyph_id);
            let colr = sfnt_table(file, index, 0x434F_4C52);
            let cpal = sfnt_table(file, index, 0x4350_414C);
            &&& overstated(file) || colr is None || cpal is None ==> !found.0 && found.1 is None
            &&& !overstated(file) && colr is Some && cpal is Some ==> found == layers_in_tables(
                colr->0,
                cpal->0,
                glyph_id,
            )
        }),
{
}

} // verus!
