//! What the renderer computes for a glyph, for tools to show.
//!
//! An inspection runs the code that storing a glyph runs, stopped just before anything is
//! kept, and hands back plain values: where each part of the glyph's block lies, the band
//! tables with the keys that their lists are sorted by, and the layers of a color glyph.

use vstd::prelude::*;
use crate::bands;
use crate::bands::{Axis, Band, BANDS, FLOATS_PER_TEXEL, HEADER_TEXELS};
use crate::colr::{ColorLayer, Rgba};
use crate::curves;
use crate::curves::{Outline, OutlineState};
use crate::halves;

verus! {

/// Where everything sits inside a glyph's block, in texels from the block's base.
#[derive(Clone, Copy, Debug, PartialEq, Eq, Structural)]
pub struct TexelLayout {
    /// Texels of band headers at the front of the block, none in a flat one.
    pub header_texels: u32,
    /// Texels of the sorted index lists, none in a flat block.
    pub index_texels: u32,
    /// The texel that the first master's records start at.
    pub records_offset: u32,
    /// Texels one master's records occupy.
    pub record_texels: u32,
    /// Length of the whole block.
    pub total_texels: u32,
    /// 1, or 2 where a second master's region follows the first's.
    pub masters: u32,
}

/// The layout of an outline's block.
pub open spec fn layout_of(outline: OutlineState, least: int) -> TexelLayout {
    let header: int = if outline.banded(least) {
        HEADER_TEXELS as int
    } else {
        0
    };
    let index: int = if outline.banded(least) {
        bands::lists_texels(outline.table->0, 2 * BANDS)
    } else {
        0
    };
    let masters: int = if outline.b is Some {
        2
    } else {
        1
    };
    let record = outline.record_texels(least);
    TexelLayout {
        header_texels: header as u32,
        index_texels: index as u32,
        records_offset: (header + index) as u32,
        record_texels: record as u32,
        total_texels: (header + index + masters * record) as u32,
        masters: masters as u32,
    }
}

/// The parts of a layout add up.
pub open spec fn adds_up(layout: TexelLayout) -> bool {
    &&& layout.records_offset == layout.header_texels + layout.index_texels
    &&& layout.total_texels == layout.records_offset + layout.masters * layout.record_texels
    &&& 1 <= layout.masters <= 2
}

/// The layout of a glyph with no outline.
pub open spec fn empty_layout() -> TexelLayout {
    TexelLayout {
        header_texels: 0,
        index_texels: 0,
        records_offset: 0,
        record_texels: 0,
        total_texels: 0,
        masters: 1,
    }
}

/// The parts of a block add up to the block: no texel of it is unaccounted for, and it is
/// as long as what the store keeps.
pub proof fn lemma_layout_adds_up(outline: OutlineState, least: int)
    requires
        outline.valid(),
        least >= 0,
    ensures
        adds_up(layout_of(outline, least)),
        outline.a.len() > 0 ==> outline.block(least).len() == 4 * layout_of(
            outline,
            least,
        ).total_texels,
{
    let layout = layout_of(outline, least);
    bands::lemma_contours_counted(outline.contours, outline.contours.len() as int);
    if outline.banded(least) {
        let table = outline.table->0;
        bands::lemma_banded_len(outline.a, outline.b, outline.contours, table);
        curves::lemma_block_len(outline, least);
        bands::lemma_lists_texels(table, outline.a.len() as int, 16);
    } else {
        bands::lemma_flat_len(outline.a, outline.b);
    }
}

/// What an inspection reports is what the store keeps of the same outline, field for
/// field.
pub proof fn lemma_reports_what_is_stored(outline: OutlineState, least: int, first: int)
    requires
        outline.valid(),
        least >= 0,
        outline.a.len() > 0,
    ensures
        ({
            let report = report_of(outline, least);
            let stored = outline.stored(least, first);
            &&& report.count == stored.count
            &&& report.bbox == stored.bbox
            &&& report.banded == stored.banded
            &&& report.layout.record_texels == stored.record_texels
            &&& report.layout.total_texels == stored.texels
            &&& report.layout.masters == (if stored.dual_master {
                2int
            } else {
                1
            })
        }),
{
    lemma_layout_adds_up(outline, least);
}

/// One entry of a band's list: which curve, and the key that the early-out compares
/// against, as a half.
#[derive(Clone, Copy, Debug, PartialEq, Eq, Structural)]
pub struct BandEntry {
    pub curve: u32,
    /// The curve's extreme coordinate along the ray axis, over both masters: the maximum
    /// in a descending list, the minimum in an ascending one.
    pub key: u16,
}

/// One band with its keys.
pub struct BandInspection {
    /// The coordinate that decides which way a sample fires, as a half.
    pub split: u16,
    /// Members by decreasing maximum coordinate along the ray axis.
    pub descending: Vec<BandEntry>,
    /// The same members by increasing minimum coordinate.
    pub ascending: Vec<BandEntry>,
}

/// What a [`BandInspection`] holds.
pub ghost struct BandReport {
    pub split: u16,
    pub descending: Seq<BandEntry>,
    pub ascending: Seq<BandEntry>,
}

impl View for BandInspection {
    type V = BandReport;

    open spec fn view(&self) -> BandReport {
        BandReport {
            split: self.split,
            descending: self.descending@,
            ascending: self.ascending@,
        }
    }
}

/// Both axes' band tables.
pub struct BandTables {
    /// Bands splitting the y extent, which horizontal rays cross.
    pub y: Vec<BandInspection>,
    /// Bands splitting the x extent, which vertical rays cross.
    pub x: Vec<BandInspection>,
}

/// What [`BandTables`] hold.
pub ghost struct TablesReport {
    pub y: Seq<BandReport>,
    pub x: Seq<BandReport>,
}

/// The views of inspected bands.
pub open spec fn band_reports(inspected: Seq<BandInspection>) -> Seq<BandReport> {
    Seq::new(inspected.len(), |i: int| inspected[i]@)
}

impl View for BandTables {
    type V = TablesReport;

    open spec fn view(&self) -> TablesReport {
        TablesReport { y: band_reports(self.y@), x: band_reports(self.x@) }
    }
}

/// A list with each curve's maximum.
pub open spec fn maxima(list: Seq<u32>, spans: Seq<(u16, u16)>) -> Seq<BandEntry> {
    Seq::new(list.len(), |i: int| BandEntry { curve: list[i], key: spans[list[i] as int].1 })
}

/// A list with each curve's minimum.
pub open spec fn minima(list: Seq<u32>, spans: Seq<(u16, u16)>) -> Seq<BandEntry> {
    Seq::new(list.len(), |i: int| BandEntry { curve: list[i], key: spans[list[i] as int].0 })
}

/// A band with its keys.
pub open spec fn keyed(band: bands::BandState, spans: Seq<(u16, u16)>) -> BandReport {
    BandReport {
        split: band.split,
        descending: maxima(band.descending, spans),
        ascending: minima(band.ascending, spans),
    }
}

/// The ranges of an outline's curves along an axis.
pub open spec fn spans_of(outline: OutlineState, axis: Axis) -> Seq<(u16, u16)> {
    Seq::new(outline.a.len(), |i: int| bands::span_at(outline.a, outline.b, axis, i))
}

/// The band tables of an outline: those along y, keyed along x, and the other way round.
pub open spec fn tables_of(outline: OutlineState) -> TablesReport {
    let table = outline.table->0;
    TablesReport {
        y: Seq::new(BANDS as nat, |i: int| keyed(table[i], spans_of(outline, Axis::X))),
        x: Seq::new(BANDS as nat, |i: int| keyed(table[BANDS + i], spans_of(outline, Axis::Y))),
    }
}

/// The keys of a band's lists run the way the early-out needs them: the descending list's
/// never rise, the ascending one's never fall.
pub proof fn lemma_keys_in_order(
    band: bands::BandState,
    members: Seq<u32>,
    spans: Seq<(u16, u16)>,
    mids: Seq<u16>,
    i: int,
    j: int,
)
    requires
        bands::is_band(band, members, spans, mids),
        forall|k: int| 0 <= k < band.descending.len() ==> #[trigger] band.descending[k] < spans.len(),
        forall|k: int| 0 <= k < band.ascending.len() ==> #[trigger] band.ascending[k] < spans.len(),
        0 <= i <= j,
    ensures
        j < band.descending.len() ==> halves::half_rank(
            keyed(band, spans).descending[i].key,
        ) >= halves::half_rank(keyed(band, spans).descending[j].key),
        j < band.ascending.len() ==> halves::half_rank(keyed(band, spans).ascending[i].key)
            <= halves::half_rank(keyed(band, spans).ascending[j].key),
{
    if i < j {
        if j < band.descending.len() {
            assert(bands::precedes(
                bands::falling_keys(spans),
                band.descending[i],
                band.descending[j],
            ));
        }
        if j < band.ascending.len() {
            assert(bands::precedes(
                bands::rising_keys(spans),
                band.ascending[i],
                band.ascending[j],
            ));
        }
    }
}

/// Everything the renderer computes for one glyph.
pub struct GlyphInspection {
    /// Quadratics per master.
    pub count: u32,
    /// Em-space bounds over both masters, as bit patterns.
    pub bbox: [u32; 4],
    /// Whether the block carries band tables.
    pub banded: bool,
    /// The band tables, present exactly where the block carries them.
    pub bands: Option<BandTables>,
    /// Where everything lands inside the block.
    pub layout: TexelLayout,
}

/// What a [`GlyphInspection`] holds.
pub ghost struct GlyphReport {
    pub count: u32,
    pub bbox: [u32; 4],
    pub banded: bool,
    pub bands: Option<TablesReport>,
    pub layout: TexelLayout,
}

impl View for GlyphInspection {
    type V = GlyphReport;

    open spec fn view(&self) -> GlyphReport {
        GlyphReport {
            count: self.count,
            bbox: self.bbox,
            banded: self.banded,
            bands: match self.bands {
                Some(tables) => Some(tables@),
                None => None,
            },
            layout: self.layout,
        }
    }
}

/// What is reported of an outline.
pub open spec fn report_of(outline: OutlineState, least: int) -> GlyphReport {
    GlyphReport {
        count: outline.a.len() as u32,
        bbox: outline.bbox,
        banded: outline.banded(least),
        bands: if outline.banded(least) {
            Some(tables_of(outline))
        } else {
            None
        },
        layout: layout_of(outline, least),
    }
}

/// What is reported of a glyph with no outline: everything empty.
pub open spec fn empty_report() -> GlyphReport {
    GlyphReport {
        count: 0,
        bbox: [0, 0, 0, 0],
        banded: false,
        bands: None,
        layout: empty_layout(),
    }
}

/// What is reported of a glyph that may have no outline.
pub open spec fn report_of_glyph(outline: Option<OutlineState>, least: int) -> GlyphReport {
    match outline {
        Some(outline) => report_of(outline, least),
        None => empty_report(),
    }
}

/// The view of an optional outline.
pub open spec fn outline_view(outline: Option<Outline>) -> Option<OutlineState> {
    match outline {
        Some(outline) => Some(outline@),
        None => None,
    }
}

fn with_maxima(list: &Vec<u32>, spans: &Vec<(u16, u16)>) -> (entries: Vec<BandEntry>)
    requires
        forall|i: int| 0 <= i < list@.len() ==> #[trigger] list@[i] < spans@.len(),
    ensures
        entries@ == maxima(list@, spans@),
{
    let mut entries: Vec<BandEntry> = Vec::new();
    let mut i: usize = 0;
    while i < list.len()
        invariant
            i <= list@.len(),
            forall|i: int| 0 <= i < list@.len() ==> #[trigger] list@[i] < spans@.len(),
            entries@ == maxima(list@, spans@).take(i as int),
        decreases list@.len() - i,
    {
        entries.push(BandEntry { curve: list[i], key: spans[list[i] as usize].1 });
        i = i + 1;
        assert(entries@ =~= maxima(list@, spans@).take(i as int));
    }
    assert(entries@ =~= maxima(list@, spans@));
    entries
}

fn with_minima(list: &Vec<u32>, spans: &Vec<(u16, u16)>) -> (entries: Vec<BandEntry>)
    requires
        forall|i: int| 0 <= i < list@.len() ==> #[trigger] list@[i] < spans@.len(),
    ensures
        entries@ == minima(list@, spans@),
{
    let mut entries: Vec<BandEntry> = Vec::new();
    let mut i: usize = 0;
    while i < list.len()
        invariant
            i <= list@.len(),
            forall|i: int| 0 <= i < list@.len() ==> #[trigger] list@[i] < spans@.len(),
            entries@ == minima(list@, spans@).take(i as int),
        decreases list@.len() - i,
    {
        entries.push(BandEntry { curve: list[i], key: spans[list[i] as usize].0 });
        i = i + 1;
        assert(entries@ =~= minima(list@, spans@).take(i as int));
    }
    assert(entries@ =~= minima(list@, spans@));
    entries
}

/// The bands of one axis, which start at `first` in the table, with their keys.
fn axis_bands(table: &Vec<Band>, first: usize, spans: &Vec<(u16, u16)>) -> (inspected: Vec<
    BandInspection,
>)
    requires
        first + BANDS <= table@.len(),
        bands::table_fits(bands::band_states(table@), spans@.len() as int),
    ensures
        band_reports(inspected@) == Seq::new(
            BANDS as nat,
            |i: int| keyed(table@[first + i]@, spans@),
        ),
{
    let ghost want = Seq::new(BANDS as nat, |i: int| keyed(table@[first + i]@, spans@));
    let mut inspected: Vec<BandInspection> = Vec::new();
    let len: usize = table.len();
    let mut i: usize = 0;
    while i < BANDS
        invariant
            i <= BANDS,
            len == table@.len(),
            first + BANDS <= table@.len(),
            bands::table_fits(bands::band_states(table@), spans@.len() as int),
            want == Seq::new(BANDS as nat, |i: int| keyed(table@[first + i]@, spans@)),
            band_reports(inspected@) == want.take(i as int),
        decreases BANDS - i,
    {
        let ghost before = inspected@;
        let band: &Band = &table[first + i];
        assert(bands::band_states(table@)[first + i] == band@);
        inspected.push(
            BandInspection {
                split: band.split,
                descending: with_maxima(&band.descending, spans),
                ascending: with_minima(&band.ascending, spans),
            },
        );
        i = i + 1;
        assert(inspected@.last()@ == keyed(band@, spans@));
        assert(band_reports(inspected@) =~= band_reports(before).push(inspected@.last()@));
        assert(band_reports(inspected@) =~= want.take(i as int));
    }
    assert(band_reports(inspected@) =~= want);
    inspected
}

/// The band tables of an outline, with each entry's key.
fn band_tables(outline: &Outline, table: &Vec<Band>) -> (tables: BandTables)
    requires
        outline@.valid(),
        outline.table == Some(*table),
    ensures
        tables@ == tables_of(outline@),
{
    let b: Option<&Vec<bands::Curve>> = match &outline.b {
        Some(b) => Some(b),
        None => None,
    };
    assert(bands::master_view(b) == outline@.b);
    let along_x: Vec<(u16, u16)> = bands::spans(&outline.a, b, Axis::X);
    let along_y: Vec<(u16, u16)> = bands::spans(&outline.a, b, Axis::Y);
    let y: Vec<BandInspection> = axis_bands(table, 0, &along_x);
    let x: Vec<BandInspection> = axis_bands(table, BANDS, &along_y);
    proof {
        let want = tables_of(outline@);
        assert(along_x@ == spans_of(outline@, Axis::X));
        assert(along_y@ == spans_of(outline@, Axis::Y));
        assert(band_reports(y@) =~= want.y);
        assert(band_reports(x@) =~= want.x);
    }
    BandTables { y, x }
}

/// Inspects an outline. Outlines of more than `least` curves are banded, where their
/// tables allow it.
pub fn inspect_outline(outline: &Outline, least: u32) -> (inspected: GlyphInspection)
    requires
        outline@.valid(),
    ensures
        inspected@ == report_of(outline@, least as int),
{
    let masters: u32 = if outline.b.is_some() {
        2
    } else {
        1
    };
    proof {
        lemma_layout_adds_up(outline@, least as int);
    }
    let count: u32 = outline.a.len() as u32;
    if count == 0 {
        assert(bands::even_up(0) == 0);
        return GlyphInspection {
            count,
            bbox: outline.bbox,
            banded: false,
            bands: None,
            layout: TexelLayout {
                header_texels: 0,
                index_texels: 0,
                records_offset: 0,
                record_texels: 0,
                total_texels: 0,
                masters,
            },
        };
    }
    let (block, banded, record_texels) = curves::lay_out(outline, least);
    proof {
        curves::lemma_block_len(outline@, least as int);
    }
    let total_texels: u32 = (block.len() / FLOATS_PER_TEXEL) as u32;
    let records_offset: u32 = total_texels - masters * record_texels;
    let header_texels: u32 = if banded {
        HEADER_TEXELS as u32
    } else {
        0
    };
    let mut tables: Option<BandTables> = None;
    if banded {
        if let Some(table) = &outline.table {
            tables = Some(band_tables(outline, table));
        }
    }
    GlyphInspection {
        count,
        bbox: outline.bbox,
        banded,
        bands: tables,
        layout: TexelLayout {
            header_texels,
            index_texels: records_offset - header_texels,
            records_offset,
            record_texels,
            total_texels,
            masters,
        },
    }
}

/// One layer of a color glyph, with the inspection of the glyph it paints.
pub struct ColorLayerInspection {
    pub glyph_id: u16,
    /// The layer's color, or nothing where it takes the text's.
    pub color: Option<Rgba>,
    pub glyph: GlyphInspection,
}

/// The inspection of a glyph with its layers. Layers are ordinary glyphs: theirs are not
/// followed, so a font that lists a color glyph as its own layer does no harm.
pub struct Inspection {
    pub glyph: GlyphInspection,
    /// The layers of a color glyph, bottom to top.
    pub colr: Option<Vec<ColorLayerInspection>>,
}

/// The inspected layers are those of the glyph, in order, each with its color and the
/// report of its own outline.
pub open spec fn layers_reported(
    layers: Seq<(ColorLayer, Option<Outline>)>,
    inspected: Seq<ColorLayerInspection>,
    least: int,
) -> bool {
    &&& inspected.len() == layers.len()
    &&& forall|i: int|
        0 <= i < layers.len() ==> {
            let layer = #[trigger] inspected[i];
            &&& layer.glyph_id == layers[i].0.glyph_id
            &&& layer.color == layers[i].0.color
            &&& layer.glyph@ == report_of_glyph(outline_view(layers[i].1), least)
        }
}

/// Inspects a glyph that may have an outline and may have layers; there is nothing to show
/// of one that has neither.
pub fn inspect_glyph(
    outline: Option<&Outline>,
    layers: Option<&Vec<(ColorLayer, Option<Outline>)>>,
    least: u32,
) -> (found: Option<Inspection>)
    requires
        outline matches Some(o) ==> o@.valid(),
        layers matches Some(layers) ==> forall|i: int|
            0 <= i < layers@.len() ==> ((#[trigger] layers@[i]).1 matches Some(o) ==> o@.valid()),
    ensures
        found is None <==> outline is None && layers is None,
        found matches Some(inspection) ==> {
            &&& inspection.glyph@ == (match outline {
                Some(o) => report_of(o@, least as int),
                None => empty_report(),
            })
            &&& inspection.colr is Some <==> layers is Some
            &&& layers matches Some(layers) ==> (inspection.colr matches Some(inspected)
                && layers_reported(layers@, inspected@, least as int))
        },
{
    if outline.is_none() && layers.is_none() {
        return None;
    }
    let colr: Option<Vec<ColorLayerInspection>> = match layers {
        Some(layers) => Some(inspect_layers(layers, least)),
        None => None,
    };
    let glyph: GlyphInspection = match outline {
        Some(outline) => inspect_outline(outline, least),
        None => empty_inspection(),
    };
    Some(Inspection { glyph, colr })
}

/// The inspection of a glyph with no outline.
fn empty_inspection() -> (inspected: GlyphInspection)
    ensures
        inspected@ == empty_report(),
{
    GlyphInspection {
        count: 0,
        bbox: [0, 0, 0, 0],
        banded: false,
        bands: None,
        layout: TexelLayout {
            header_texels: 0,
            index_texels: 0,
            records_offset: 0,
            record_texels: 0,
            total_texels: 0,
            masters: 1,
        },
    }
}

fn inspect_layers(layers: &Vec<(ColorLayer, Option<Outline>)>, least: u32) -> (inspected: Vec<
    ColorLayerInspection,
>)
    requires
        forall|i: int|
            0 <= i < layers@.len() ==> ((#[trigger] layers@[i]).1 matches Some(o) ==> o@.valid()),
    ensures
        layers_reported(layers@, inspected@, least as int),
{
    let mut inspected: Vec<ColorLayerInspection> = Vec::new();
    let mut i: usize = 0;
    while i < layers.len()
        invariant
            i <= layers@.len(),
            forall|i: int|
                0 <= i < layers@.len() ==> ((#[trigger] layers@[i]).1 matches Some(o)
                    ==> o@.valid()),
            layers_reported(layers@.take(i as int), inspected@, least as int),
        decreases layers@.len() - i,
    {
        let glyph: GlyphInspection = match &layers[i].1 {
            Some(outline) => inspect_outline(outline, least),
            None => empty_inspection(),
        };
        assert(glyph@ == report_of_glyph(outline_view(layers@[i as int].1), least as int));
        inspected.push(
            ColorLayerInspection {
                glyph_id: layers[i].0.glyph_id,
                color: layers[i].0.color,
                glyph,
            },
        );
        i = i + 1;
    }
    assert(layers@.take(i as int) =~= layers@);
    inspected
}

/// The name is among the first `n`.
pub open spec fn named(names: Seq<String>, n: int, name: Seq<char>) -> bool {
    exists|i: int| 0 <= i < n && (#[trigger] names[i])@ == name
}

/// Each name once, where it first occurs.
pub open spec fn distinct(names: Seq<String>, n: int) -> Seq<Seq<char>>
    decreases n,
{
    if n <= 0 {
        Seq::empty()
    } else if named(names, n - 1, names[n - 1]@) {
        distinct(names, n - 1)
    } else {
        distinct(names, n - 1).push(names[n - 1]@)
    }
}

/// The views of strings.
pub open spec fn names_view(names: Seq<String>) -> Seq<Seq<char>> {
    Seq::new(names.len(), |i: int| names[i]@)
}

/// Every name is listed, and nothing else.
pub proof fn lemma_all_families_listed(names: Seq<String>, n: int, name: Seq<char>)
    requires
        0 <= n <= names.len(),
    ensures
        distinct(names, n).contains(name) <==> named(names, n, name),
    decreases n,
{
    if n > 0 {
        lemma_all_families_listed(names, n - 1, name);
        let before = distinct(names, n - 1);
        if named(names, n - 1, names[n - 1]@) {
            if named(names, n, name) && !named(names, n - 1, name) {
                assert(names[n - 1]@ == name);
            }
        } else {
            let after = before.push(names[n - 1]@);
            if named(names, n, name) {
                if names[n - 1]@ == name {
                    assert(after[before.len() as int] == name);
                } else {
                    assert(named(names, n - 1, name));
                    let i = choose|i: int| 0 <= i < before.len() && before[i] == name;
                    assert(after[i] == name);
                }
            }
            if after.contains(name) {
                let i = choose|i: int| 0 <= i < after.len() && after[i] == name;
                if i < before.len() {
                    assert(before[i] == name);
                    assert(before.contains(name));
                } else {
                    assert(names[n - 1]@ == name);
                }
            }
        }
    }
}

/// No name is listed twice.
pub proof fn lemma_families_distinct(names: Seq<String>, n: int)
    requires
        0 <= n <= names.len(),
    ensures
        distinct(names, n).no_duplicates(),
    decreases n,
{
    if n > 0 {
        lemma_families_distinct(names, n - 1);
        lemma_all_families_listed(names, n - 1, names[n - 1]@);
    }
}

/// The family names of faces, each once, in the order they first occur.
pub fn families(names: &Vec<String>) -> (listed: Vec<String>)
    ensures
        names_view(listed@) == distinct(names@, names@.len() as int),
{
    let mut listed: Vec<String> = Vec::new();
    let mut i: usize = 0;
    assert(names_view(listed@) =~= distinct(names@, 0));
    while i < names.len()
        invariant
            i <= names@.len(),
            names_view(listed@) == distinct(names@, i as int),
        decreases names@.len() - i,
    {
        let ghost before = listed@;
        let known: bool = lists(&listed, &names[i]);
        proof {
            let name = names@[i as int]@;
            lemma_all_families_listed(names@, i as int, name);
            if known {
                let k = choose|k: int| 0 <= k < listed@.len() && (#[trigger] listed@[k])@ == name;
                assert(names_view(listed@)[k] == name);
            } else if names_view(listed@).contains(name) {
                let k = choose|k: int|
                    0 <= k < listed@.len() && names_view(listed@)[k] == name;
                assert(listed@[k]@ == name);
            }
        }
        if !known {
            listed.push(names[i].clone());
            assert(names_view(listed@) =~= names_view(before).push(names@[i as int]@));
        }
        i = i + 1;
    }
    listed
}

/// Whether a name is in a list.
fn lists(names: &Vec<String>, name: &String) -> (yes: bool)
    ensures
        yes <==> named(names@, names@.len() as int, name@),
{
    let mut i: usize = 0;
    while i < names.len()
        invariant
            i <= names@.len(),
            !named(names@, i as int, name@),
        decreases names@.len() - i,
    {
        if names[i] == *name {
            assert(names@[i as int]@ == name@);
            return true;
        }
        i = i + 1;
    }
    false
}

/// The face claims the family.
pub open spec fn claims(faces: Seq<Vec<String>>, i: int, family: Seq<char>) -> bool {
    named(faces[i]@, faces[i]@.len() as int, family)
}

/// The face of a family. Fonts that come with a program are loaded last, so of several
/// faces that claim the family the last one wins.
pub fn face_by_family(faces: &Vec<Vec<String>>, family: &String) -> (found: Option<usize>)
    ensures
        match found {
            Some(at) => {
                &&& at < faces@.len()
                &&& claims(faces@, at as int, family@)
                &&& forall|i: int|
                    at < i < faces@.len() ==> !#[trigger] claims(faces@, i, family@)
            },
            None => forall|i: int|
                0 <= i < faces@.len() ==> !#[trigger] claims(faces@, i, family@),
        },
{
    let mut i: usize = faces.len();
    while i > 0
        invariant
            i <= faces@.len(),
            forall|k: int| i <= k < faces@.len() ==> !#[trigger] claims(faces@, k, family@),
        decreases i,
    {
        i = i - 1;
        if lists(&faces[i], family) {
            assert(claims(faces@, i as int, family@));
            return Some(i);
        }
    }
    None
}

/// The keys of a band's lists are the ends of its curves' ranges: in the descending list the
/// greatest coordinate, in the ascending one the least.
pub proof fn lemma_keys(band: bands::BandState, spans: Seq<(u16, u16)>, i: int)
    ensures
        keyed(band, spans).split == band.split,
        keyed(band, spans).descending.len() == band.descending.len(),
        keyed(band, spans).ascending.len() == band.ascending.len(),
        0 <= i < band.descending.len() ==> keyed(band, spans).descending[i].curve
            == band.descending[i] && keyed(band, spans).descending[i].key
            == spans[band.descending[i] as int].1,
        0 <= i < band.ascending.len() ==> keyed(band, spans).ascending[i].curve
            == band.ascending[i] && keyed(band, spans).ascending[i].key
            == spans[band.ascending[i] as int].0,
{
}

/// Both axes are reported, eight bands each, in the order of the table: the bands along y
/// with the curves' ranges along x, which horizontal rays run along, and the other way round.
#[verifier::spinoff_prover]
pub proof fn lemma_tables_reported(outline: OutlineState, band: int, i: int)
    requires
        outline.valid(),
        outline.table is Some,
        0 <= band < 8,
    ensures
        ({
            let tables = tables_of(outline);
            let table = outline.table->0;
            let y = table[band];
            let x = table[8 + band];
            &&& tables.y.len() == 8 && tables.x.len() == 8
            &&& tables.y[band].split == y.split && tables.x[band].split == x.split
            &&& 0 <= i < y.descending.len() ==> tables.y[band].descending[i].curve
                == y.descending[i] && tables.y[band].descending[i].key == bands::span_at(
                outline.a,
                outline.b,
                Axis::X,
                y.descending[i] as int,
            ).1
            &&& 0 <= i < x.descending.len() ==> tables.x[band].descending[i].curve
                == x.descending[i] && tables.x[band].descending[i].key == bands::span_at(
                outline.a,
                outline.b,
                Axis::Y,
                x.descending[i] as int,
            ).1
            &&& 0 <= i < y.ascending.len() ==> tables.y[band].ascending[i].key == bands::span_at(
                outline.a,
                outline.b,
                Axis::X,
                y.ascending[i] as int,
            ).0
            &&& 0 <= i < x.ascending.len() ==> tables.x[band].ascending[i].key == bands::span_at(
                outline.a,
                outline.b,
                Axis::Y,
                x.ascending[i] as int,
            ).0
        }),
{
    let table = outline.table->0;
    assert(table[band].descending.len() <= outline.a.len());
    assert(table[8 + band].descending.len() <= outline.a.len());
    if 0 <= i < table[band].descending.len() {
        assert(table[band].descending[i] < outline.a.len());
        assert(table[band].ascending[i] < outline.a.len());
    }
    if 0 <= i < table[8 + band].descending.len() {
        assert(table[8 + band].descending[i] < outline.a.len());
        assert(table[8 + band].ascending[i] < outline.a.len());
    }
}

/// The name is at a place and at none before it.
pub open spec fn first_at(names: Seq<String>, i: int, name: Seq<char>) -> bool {
    0 <= i < names.len() && names[i]@ == name && !named(names, i, name)
}

/// Names are listed in the order they first occur: `at` says where each one does.
#[verifier::spinoff_prover]
pub proof fn lemma_families_in_order(names: Seq<String>, n: int) -> (at: Seq<int>)
    requires
        0 <= n <= names.len(),
    ensures
        at.len() == distinct(names, n).len(),
        forall|k: int|
            0 <= k < at.len() ==> 0 <= #[trigger] at[k] < n && first_at(
                names,
                at[k],
                distinct(names, n)[k],
            ),
        forall|j: int, k: int| 0 <= j < k < at.len() ==> #[trigger] at[j] < #[trigger] at[k],
    decreases n,
{
    if n <= 0 {
        Seq::empty()
    } else {
        let before = lemma_families_in_order(names, n - 1);
        if named(names, n - 1, names[n - 1]@) {
            before
        } else {
            let at = before.push(n - 1);
            let all = distinct(names, n);
            assert forall|k: int| 0 <= k < at.len() implies 0 <= #[trigger] at[k] < n && first_at(
                names,
                at[k],
                all[k],
            ) by {
                if k < before.len() {
                    assert(at[k] == before[k]);
                    assert(all[k] == distinct(names, n - 1)[k]);
                }
            }
            at
        }
    }
}

/// A block of bands starts with sixteen texels of headers, and its records where the lists
/// end; a flat one is its records.
pub proof fn lemma_layout_parts(outline: OutlineState, least: int)
    requires
        outline.valid(),
        least >= 0,
    ensures
        outline.banded(least) ==> layout_of(outline, least).header_texels == 16 && layout_of(
            outline,
            least,
        ).records_offset == bands::records_at(outline.table->0),
        !outline.banded(least) ==> layout_of(outline, least).header_texels == 0 && layout_of(
            outline,
            least,
        ).records_offset == 0,
        layout_of(outline, least).masters == (if outline.b is Some {
            2int
        } else {
            1
        }),
{
    if outline.banded(least) {
        let table = outline.table->0;
        bands::lemma_lists_texels(table, outline.a.len() as int, 2 * BANDS as int);
    }
}

} // verus!
