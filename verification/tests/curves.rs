use std::collections::HashMap;

use faf_text::bands::{
    band_lists, band_table, banded_block, bounds, control_span, flat_block, joined_bands, second_master, shared_records,
    shared_texels, spans, Axis, AxisPlaces, Band, BandRange, Bounds, Curve, BANDED_FLAG, BANDS, BAND_ENTRY_TEXELS, BAND_MIN_CURVES, FLOATS_PER_CURVE, FLOATS_PER_TEXEL,
    HEADER_TEXELS, TEXELS_PER_CURVE,
};
use faf_text::curves::{floats_per_row, texel_capacity, CurveStore, GlyphCurves, GlyphKey, Outline, CURVE_TEX_WIDTH};
use faf_text::halves::{half_number_of, is_number_half, F16_EXACT_INT};
use half::f16;

const BAND_EPSILON: f32 = 0.05;
const LIMIT: u32 = 8192;

fn half(v: f32) -> u16 {
    f16::from_f32(v).to_bits()
}

fn value(bits: u16) -> f32 {
    f16::from_bits(bits).to_f32()
}

fn curve(p: [[f32; 2]; 3]) -> Curve {
    Curve {
        x0: half(p[0][0]),
        y0: half(p[0][1]),
        x1: half(p[1][0]),
        y1: half(p[1][1]),
        x2: half(p[2][0]),
        y2: half(p[2][1]),
    }
}

/// Which bands of `[min, max]` each range overlaps, widened by a fraction of a band.
fn ranges_of(ranges: &[(f32, f32)], min: f32, max: f32) -> Vec<BandRange> {
    let height = ((max - min) / BANDS as f32).max(f32::MIN_POSITIVE);
    let eps = height * BAND_EPSILON;
    let last_band = (BANDS - 1) as f32;
    ranges
        .iter()
        .map(|(lo, hi)| BandRange {
            first: ((lo - eps - min) / height).floor().clamp(0.0, last_band) as usize,
            last: ((hi + eps - min) / height).floor().clamp(0.0, last_band) as usize,
        })
        .collect()
}

fn values(spans: &[(u16, u16)]) -> Vec<(f32, f32)> {
    spans.iter().map(|s| (value(s.0), value(s.1))).collect()
}

/// Where the curves are along an axis, with the bands over `[min, max]`.
fn places(a: &Vec<Curve>, b: Option<&Vec<Curve>>, axis: Axis, min: f32, max: f32) -> AxisPlaces {
    let along = values(&spans(a, b, axis));
    AxisPlaces {
        extent: (half(min), half(max)),
        ranges: ranges_of(&along, min, max),
        mids: along.iter().map(|(lo, hi)| half((lo + hi) * 0.5)).collect(),
    }
}

fn bbox_of(a: &Vec<Curve>, b: Option<&Vec<Curve>>) -> [f32; 4] {
    let found = bounds(a, b);
    [value(found.left), value(found.bottom), value(found.right), value(found.top)]
}

fn table_of(a: &Vec<Curve>, b: Option<&Vec<Curve>>, bbox: [f32; 4]) -> Vec<Band> {
    let y = places(a, b, Axis::Y, bbox[1], bbox[3]);
    let x = places(a, b, Axis::X, bbox[0], bbox[2]);
    band_table(a, b, &y, &x)
}

fn outline_of(a: Vec<Curve>, b: Option<Vec<Curve>>, contours: Vec<u32>, weight_t: f32) -> Outline {
    let bbox = bbox_of(&a, b.as_ref());
    let table = table_of(&a, b.as_ref(), bbox);
    Outline { a, b, contours, table: Some(table), bbox: bbox.map(f32::to_bits), weight_t: weight_t.to_bits() }
}

/// A closed ring of `n` curves.
fn ring(n: usize, radius: f32, center: [f32; 2]) -> Vec<Curve> {
    let at = |i: usize| {
        let t = (i % n) as f32 / n as f32 * std::f32::consts::TAU;
        [center[0] + radius * t.cos(), center[1] + radius * t.sin()]
    };
    (0..n)
        .map(|i| {
            let (from, to) = (at(i), at(i + 1));
            curve([from, [(from[0] + to[0]) * 0.5, (from[1] + to[1]) * 0.5], to])
        })
        .collect()
}

/// A glyph of `outer + inner` curves: a ring with a counter.
fn glyph_outline(outer: usize, inner: usize) -> Outline {
    let mut a = ring(outer, 0.5, [0.5, 0.5]);
    a.extend(ring(inner, 0.25, [0.5, 0.5]));
    outline_of(a, None, vec![outer as u32, inner as u32], 0.0)
}

/// The same in two masters.
fn variable_outline(outer: usize, inner: usize, weight_t: f32) -> Outline {
    let mut a = ring(outer, 0.4, [0.5, 0.5]);
    a.extend(ring(inner, 0.25, [0.5, 0.5]));
    let mut b = ring(outer, 0.6, [0.5, 0.5]);
    b.extend(ring(inner, 0.1, [0.5, 0.5]));
    outline_of(a, Some(b), vec![outer as u32, inner as u32], weight_t)
}

fn key_of(glyph_id: u16) -> GlyphKey {
    GlyphKey::new(1, glyph_id, 400, 0)
}

fn get(store: &mut CurveStore, glyph_id: u16) -> Option<GlyphCurves> {
    let n = 3 + glyph_id as usize % 40;
    store.get_or_insert(key_of(glyph_id), Some(&glyph_outline(n, 4)))
}

/// A glyph's whole block, as numbers.
fn slice_of(store: &CurveStore, curves: &GlyphCurves) -> Vec<f32> {
    let start = curves.first as usize * FLOATS_PER_TEXEL;
    let end = start + curves.texels as usize * FLOATS_PER_TEXEL;
    store.data()[start..end].iter().map(|v| value(*v)).collect()
}

#[test]
fn flush_uploads_glyphs_that_fit_inside_a_partial_row() {
    let mut store = CurveStore::new(LIMIT);

    let a = get(&mut store, 20).expect("glyph 20");
    let first = store.flush().expect("the first glyph is new");
    assert_eq!(first.start_row, 0);
    assert_eq!(first.rows, 1);
    assert_eq!(first.halves.len(), floats_per_row(CURVE_TEX_WIDTH));
    let after_first = store.data().len();
    assert_eq!(&first.halves[..after_first], store.data());
    assert!(store.flush().is_none(), "nothing is new");

    let b = get(&mut store, 21).expect("glyph 21");
    assert!(
        (b.first as usize * FLOATS_PER_TEXEL) < after_first.next_multiple_of(floats_per_row(CURVE_TEX_WIDTH)),
        "the new glyph starts inside the flushed partial row"
    );
    let second = store.flush().expect("data appended within a partial row is new");
    assert_eq!(second.start_row, 0, "the partial row is refreshed");
    assert_eq!(&second.halves[..store.data().len()], store.data());
    assert!(second.halves[store.data().len()..].iter().all(|v| *v == 0));
    assert_ne!(a.first, b.first);
}

#[test]
fn texture_doubles_on_overflow_and_preserves_existing_curves() {
    let mut store = CurveStore::with_size(CURVE_TEX_WIDTH, 2, 64, LIMIT);
    store.begin_frame(1);

    let first = get(&mut store, 36).expect("glyph 36 has an outline");
    assert!(first.count > 0);
    let snapshot = slice_of(&store, &first);
    store.flush();

    for glyph_id in 37..120 {
        get(&mut store, glyph_id);
    }

    let height = store.size().1;
    assert!(height > 2, "texture should have grown");
    assert_eq!(height % 2, 0, "height doubles, so stays even");
    assert!(store.generation() > 0, "growth bumps the generation");
    let upload = store.flush().expect("growth schedules a full upload");
    assert_eq!(upload.start_row, 0);
    let same = get(&mut store, 36).unwrap();
    assert_eq!(same.first, first.first);
    assert_eq!(slice_of(&store, &same), snapshot);
}

#[test]
fn growth_stops_at_the_cap_and_defers_compaction_to_the_frame_edge() {
    let mut store = CurveStore::with_size(CURVE_TEX_WIDTH, 8, 8, LIMIT);
    store.begin_frame(1);

    let mut overflowed = None;
    for glyph_id in 36..500 {
        get(&mut store, glyph_id);
        if store.overflowed() {
            overflowed = Some(glyph_id);
            break;
        }
    }
    let overflowed = overflowed.expect("the store should have filled up");
    assert_eq!(store.size().1, 8, "capped stores never grow");
    assert_eq!(store.generation(), 0, "no eviction happens mid-frame");
    assert!(store.get(key_of(overflowed)).is_none(), "an overflowing glyph is not cached as outline-less");
    let filled = store.data().len();

    store.begin_frame(2);
    assert!(!store.overflowed());
    assert!(store.generation() > 0, "compaction bumps the generation");
    assert_eq!(store.layout_generation(), 1);
    assert!(store.data().len() < filled, "compaction frees room");
    let upload = store.flush().expect("compaction uploads everything");
    assert_eq!(upload.start_row, 0);
    assert!(
        get(&mut store, overflowed).is_some_and(|c| c.count > 0),
        "the glyph that overflowed fits after compaction"
    );
}

#[test]
fn compaction_drops_the_lru_half_and_repacks_survivors() {
    let mut store = CurveStore::with_size(CURVE_TEX_WIDTH, 16, 16, LIMIT);

    let mut before: HashMap<u16, (GlyphCurves, Vec<f32>)> = HashMap::new();
    let mut oldest = Vec::new();
    let mut glyph_id = 36;
    for frame in 1..=3 {
        store.begin_frame(frame);
        for _ in 0..8 {
            let curves = get(&mut store, glyph_id).expect("there is room");
            before.insert(glyph_id, (curves, slice_of(&store, &curves)));
            if frame == 1 {
                oldest.push(glyph_id);
            }
            glyph_id += 1;
        }
    }
    let populated = before.len();
    // A glyph too big for what is left makes the store compact.
    let mut big = 500;
    while !store.overflowed() {
        store.get_or_insert(key_of(big), Some(&glyph_outline(200, 4)));
        if !store.overflowed() {
            let curves = store.get(key_of(big)).unwrap().unwrap();
            before.insert(big, (curves, slice_of(&store, &curves)));
        }
        big += 1;
    }
    let entries = before.len();
    assert!(populated > 6, "there are entries on both sides of the split");

    store.begin_frame(4);

    let mut kept = 0;
    let mut live = 0;
    for (id, (old, data)) in &before {
        let Some(Some(curves)) = store.get(key_of(*id)) else {
            continue;
        };
        kept += 1;
        live += curves.texels as usize * FLOATS_PER_TEXEL;
        assert_eq!(&slice_of(&store, &curves), data, "curve data moved but stayed the same");
        assert_eq!(store.relocation(old.first), Some(curves.first));
    }
    assert_eq!(kept, entries - entries / 2);
    for id in &oldest {
        assert!(store.get(key_of(*id)).is_none(), "frame-1 entries are the least recently used");
        assert_eq!(store.relocation(before[id].0.first), None);
    }
    assert_eq!(live, store.data().len(), "the data is densely packed");
}

#[test]
fn churning_thousands_of_glyph_and_weight_combos_stays_bounded() {
    let mut store = CurveStore::with_size(CURVE_TEX_WIDTH, 8, 32, LIMIT);
    let cap = texel_capacity(CURVE_TEX_WIDTH, 32);

    for (frame, weight) in (1..=20u64).zip((100u16..).step_by(50)) {
        store.begin_frame(frame);
        for glyph_id in 36..136u16 {
            let outline = glyph_outline(3 + glyph_id as usize % 40, 4);
            let curves = store.get_or_insert(GlyphKey::new(1, glyph_id, weight, 0), Some(&outline));
            if let Some(curves) = curves {
                assert!((curves.first + curves.texels) as usize <= cap, "curve block escaped the texture");
            }
        }
        assert!(store.data().len() / FLOATS_PER_TEXEL <= cap, "the data outgrew the texture");
        assert!(store.size().1 <= 32, "growth respects the cap");
    }
}

/// Curves with the given (x-range, y-range), as flat quads whose control points span
/// exactly that box.
fn curves_spanning(ranges: &[([f32; 2], [f32; 2])]) -> Vec<Curve> {
    ranges
        .iter()
        .map(|([x0, x1], [y0, y1])| curve([[*x0, *y0], [(x0 + x1) * 0.5, (y0 + y1) * 0.5], [*x1, *y1]]))
        .collect()
}

#[test]
fn bands_take_every_curve_overlapping_them_plus_an_epsilon_margin() {
    let given = [
        ([0.0, 1.0], [0.0, 0.4]),
        ([0.0, 1.0], [2.5, 4.5]),
        ([0.0, 1.0], [3.0, 3.0]),
        ([0.0, 1.0], [6.96, 7.9]),
        ([0.0, 1.0], [0.0, 8.0]),
    ];
    let y: Vec<(f32, f32)> = given.iter().map(|r| (r.1[0], r.1[1])).collect();
    let lists = band_lists(&ranges_of(&y, 0.0, 8.0));

    assert_eq!(lists[0], vec![0, 4]);
    assert_eq!(lists[1], vec![4]);
    assert_eq!(lists[2], vec![1, 2, 4], "the boundary curve joins band 2");
    assert_eq!(lists[3], vec![1, 2, 4], "…and band 3");
    assert_eq!(lists[4], vec![1, 4]);
    assert_eq!(lists[5], vec![4]);
    assert_eq!(lists[6], vec![3, 4], "6.96 is inside band 7 but within eps");
    assert_eq!(lists[7], vec![3, 4]);

    let x: Vec<(f32, f32)> = given.iter().map(|r| (r.0[0], r.0[1])).collect();
    for list in band_lists(&ranges_of(&x, 0.0, 1.0)) {
        assert_eq!(list, vec![0, 1, 2, 3, 4]);
    }
}

#[test]
fn a_curve_outside_a_band_cannot_cross_any_ray_inside_it() {
    let mut given = Vec::new();
    for i in 0..40u32 {
        let y = i as f32 * 0.1;
        given.push(([0.0, 1.0], [y, y + 0.25]));
    }
    let curves = curves_spanning(&given);
    let along = spans(&curves, None, Axis::Y);
    let lists = band_lists(&ranges_of(&values(&along), 0.0, 4.0));
    let height = 4.0 / BANDS as f32;
    for (band, list) in lists.iter().enumerate() {
        let (lo, hi) = (band as f32 * height, (band as f32 + 1.0) * height);
        for (index, c) in curves.iter().enumerate() {
            if list.contains(&(index as u32)) {
                continue;
            }
            let ys = [value(c.y0), value(c.y1), value(c.y2)];
            let below = ys.iter().all(|y| *y < lo);
            let above = ys.iter().all(|y| *y > hi);
            assert!(below || above, "curve {index} straddles band {band}");
        }
    }
}

struct DecodedBand {
    descending: Vec<u32>,
    ascending: Vec<u32>,
    split: f32,
}

struct DecodedBlock {
    bands: Vec<DecodedBand>,
    texel_of: Vec<u32>,
    records_offset: usize,
}

/// Decodes a banded block: header entry per band, its two index lists, curve texels.
fn decode_bands(block: &[f32], curves: &GlyphCurves) -> DecodedBlock {
    let masters = if curves.dual_master { 2 } else { 1 };
    let records_offset = block.len() / FLOATS_PER_TEXEL - masters * curves.record_texels as usize;
    let bbox = curves.bbox.map(f32::from_bits);

    let mut decoded = Vec::new();
    let mut texels = Vec::new();
    for slot in 0..2 * BANDS {
        let entry = &block[slot * FLOATS_PER_TEXEL..][..FLOATS_PER_TEXEL];
        let len = entry[1] as usize;
        let axis = if slot < BANDS { 1 } else { 0 };
        let band = slot % BANDS;
        let height = (bbox[axis + 2] - bbox[axis]) / BANDS as f32;
        let (lo, hi) = (bbox[axis] + band as f32 * height, bbox[axis] + (band as f32 + 1.0) * height);
        let eps = height * BAND_EPSILON;

        let mut lists = Vec::new();
        for list in [entry[0] as usize, entry[3] as usize] {
            assert!(list >= HEADER_TEXELS && list + len.div_ceil(4) <= records_offset);
            let mut entries = Vec::new();
            for i in 0..len {
                let texel = block[list * FLOATS_PER_TEXEL + i] as usize;
                assert!(texel >= records_offset, "list entry points into the header");
                assert!(
                    texel + 1 < records_offset + curves.record_texels as usize,
                    "a curve's second texel must stay inside master A"
                );
                let (mut curve_lo, mut curve_hi) = span_at(block, texel, axis);
                if curves.dual_master {
                    let twin = span_at(block, texel + curves.record_texels as usize, axis);
                    curve_lo = curve_lo.min(twin.0);
                    curve_hi = curve_hi.max(twin.1);
                }
                assert!(
                    curve_hi >= lo - eps && curve_lo <= hi + eps,
                    "band {slot} lists a curve it does not overlap"
                );
                entries.push(texel as u32);
                texels.push(texel as u32);
            }
            lists.push(entries);
        }
        decoded.push((lists, entry[2]));
    }

    texels.sort_unstable();
    texels.dedup();
    assert_eq!(texels.len(), curves.count as usize, "every curve should appear in some band");
    let index_of = |texel: u32| texels.binary_search(&texel).unwrap() as u32;
    let bands = decoded
        .into_iter()
        .map(|(lists, split)| DecodedBand {
            descending: lists[0].iter().map(|&t| index_of(t)).collect(),
            ascending: lists[1].iter().map(|&t| index_of(t)).collect(),
            split,
        })
        .collect();
    DecodedBlock {
        bands,
        texel_of: texels.iter().map(|t| t - records_offset as u32).collect(),
        records_offset,
    }
}

/// The curves a region packs, in order.
fn curves_at(block: &[f32], base: usize, texel_of: &[u32]) -> Vec<Curve> {
    texel_of
        .iter()
        .map(|texel| {
            let c = &block[(base + *texel as usize) * FLOATS_PER_TEXEL..];
            curve([[c[0], c[1]], [c[2], c[3]], [c[4], c[5]]])
        })
        .collect()
}

fn span_at(block: &[f32], texel: usize, axis: usize) -> (f32, f32) {
    let c = &block[texel * FLOATS_PER_TEXEL..];
    let coords = [c[axis], c[2 + axis], c[4 + axis]];
    (coords.iter().copied().fold(f32::INFINITY, f32::min), coords.iter().copied().fold(f32::NEG_INFINITY, f32::max))
}

fn curve_span(curves: &[Curve], index: u32, axis: Axis) -> (f32, f32) {
    let (lo, hi) = control_span(curves[index as usize], axis);
    (value(lo), value(hi))
}

#[test]
fn only_glyphs_past_the_threshold_are_banded_and_their_headers_round_trip() {
    let mut store = CurveStore::new(LIMIT);
    store.begin_frame(1);

    let mut banded: Option<GlyphCurves> = None;
    let mut flat: Option<GlyphCurves> = None;
    for glyph_id in 36..200 {
        let curves = get(&mut store, glyph_id).unwrap();
        if curves.banded {
            banded.get_or_insert(curves);
        } else {
            flat.get_or_insert(curves);
        }
    }
    let banded = banded.expect("some glyph exceeds the banding threshold");
    let flat = flat.expect("some glyph stays under it");

    assert!(flat.count <= BAND_MIN_CURVES);
    assert_eq!(flat.instance_count(), flat.count, "flat glyphs are unflagged");
    assert_eq!(
        flat.texels as usize,
        flat.count as usize * TEXELS_PER_CURVE,
        "a flat block is nothing but unshared records"
    );

    assert!(banded.count > BAND_MIN_CURVES);
    assert_eq!(banded.instance_count(), banded.count | BANDED_FLAG);
    assert_eq!(banded.first % 2, 0, "records must not straddle a row");
    assert_eq!(banded.texels % 2, 0);
    assert!(
        banded.record_texels < banded.count * TEXELS_PER_CURVE as u32,
        "endpoint sharing must beat the unshared record"
    );

    let block = slice_of(&store, &banded);
    let decoded = decode_bands(&block, &banded);
    let curves = curves_at(&block, decoded.records_offset, &decoded.texel_of);
    let bbox = banded.bbox.map(f32::from_bits);
    for (slot, band) in decoded.bands.iter().enumerate() {
        let (at, axis) = if slot < BANDS { (1, Axis::Y) } else { (0, Axis::X) };
        let along = values(&spans(&curves, None, axis));
        let expected = &band_lists(&ranges_of(&along, bbox[at], bbox[at + 2]))[slot % BANDS];
        for list in [&band.descending, &band.ascending] {
            let mut sorted = list.clone();
            sorted.sort_unstable();
            assert_eq!(&sorted, expected, "band {slot} lost curves");
        }
    }
    assert!(
        decoded.bands.iter().any(|band| band.descending.len() < banded.count as usize),
        "banding should cut some band's loop below the full curve set"
    );
}

#[test]
fn band_lists_are_sorted_by_the_ray_axis_extremes_the_shader_breaks_on() {
    let mut store = CurveStore::new(LIMIT);
    store.begin_frame(1);

    let banded = (36..200)
        .filter_map(|glyph_id| get(&mut store, glyph_id))
        .find(|c| c.banded)
        .expect("some glyph exceeds the banding threshold");
    let block = slice_of(&store, &banded);
    let decoded = decode_bands(&block, &banded);
    let curves = curves_at(&block, decoded.records_offset, &decoded.texel_of);

    let mut split_inside = 0;
    for (slot, band) in decoded.bands.iter().enumerate() {
        let ray = if slot < BANDS { Axis::X } else { Axis::Y };
        for pair in band.descending.windows(2) {
            let (a, b) = (curve_span(&curves, pair[0], ray).1, curve_span(&curves, pair[1], ray).1);
            assert!(a >= b, "band {slot} is not descending by maximum");
        }
        for pair in band.ascending.windows(2) {
            let (a, b) = (curve_span(&curves, pair[0], ray).0, curve_span(&curves, pair[1], ray).0);
            assert!(a <= b, "band {slot} is not ascending by minimum");
        }
        if let (Some(&first), Some(&last)) = (band.ascending.first(), band.descending.first()) {
            let lo = curve_span(&curves, first, ray).0;
            let hi = curve_span(&curves, last, ray).1;
            assert!(band.split >= lo && band.split <= hi, "band {slot} split {} is outside [{lo}, {hi}]", band.split);
            split_inside += 1;
        }
    }
    assert!(split_inside > 0, "the glyph should have populated bands");
}

#[test]
fn shared_curve_texels_hand_p2_to_the_next_texel_and_close_each_contour() {
    let mut store = CurveStore::new(LIMIT);
    store.begin_frame(1);

    let mut multi_contour = 0;
    let mut banded_glyphs = 0;
    for glyph_id in 36..200 {
        let banded = get(&mut store, glyph_id).unwrap();
        if !banded.banded {
            continue;
        }
        banded_glyphs += 1;
        let block = slice_of(&store, &banded);
        let decoded = decode_bands(&block, &banded);
        if check_shared_region(&block, &banded, &decoded) > 1 {
            multi_contour += 1;
        }
    }
    assert!(banded_glyphs > 0, "some glyph exceeds the banding threshold");
    assert!(multi_contour > 0, "some glyph has a counter to share around");
}

fn check_shared_region(block: &[f32], banded: &GlyphCurves, decoded: &DecodedBlock) -> usize {
    let point = |texel: u32| {
        let start = (decoded.records_offset + texel as usize) * FLOATS_PER_TEXEL;
        [block[start], block[start + 1]]
    };
    let p2_of = |texel: u32| {
        let start = (decoded.records_offset + texel as usize) * FLOATS_PER_TEXEL;
        [block[start + 4], block[start + 5]]
    };

    let mut contours = 1;
    let mut contour_start = decoded.texel_of[0];
    assert_eq!(contour_start, 0, "the first contour starts the region");
    for pair in decoded.texel_of.windows(2) {
        let (here, next) = (pair[0], pair[1]);
        assert_eq!(p2_of(here), point(here + 1), "curve {here}'s p2 must be the texel the shader reads next");
        match next - here {
            1 => {}
            2 => {
                assert_eq!(point(here + 1), point(contour_start), "a contour's terminator repeats its first point");
                contours += 1;
                contour_start = next;
            }
            gap => panic!("curves are one or two texels apart, not {gap}"),
        }
    }
    let last = *decoded.texel_of.last().unwrap();
    assert_eq!(p2_of(last), point(contour_start), "the last contour closes too");
    assert_eq!(
        banded.record_texels,
        shared_texels(banded.count as usize, contours),
        "a texel per curve, a texel per contour"
    );
    contours
}

#[test]
fn banded_blocks_only_encode_integers_f16_holds_exactly() {
    let mut biggest = 0.0f32;
    for variable in [false, true] {
        let mut store = CurveStore::new(LIMIT);
        store.begin_frame(1);
        for n in (4..300u16).step_by(7) {
            let outline = if variable { variable_outline(n as usize, 5, 0.5) } else { glyph_outline(n as usize, 5) };
            let curves = store.get_or_insert(key_of(n), Some(&outline)).unwrap();
            if !curves.banded {
                continue;
            }
            let block = slice_of(&store, &curves);
            let decoded = decode_bands(&block, &curves);
            let mut integers: Vec<f32> = Vec::new();
            for slot in 0..2 * BANDS {
                let entry = &block[slot * FLOATS_PER_TEXEL..][..FLOATS_PER_TEXEL];
                integers.extend([entry[0], entry[1], entry[3]]);
            }
            integers.extend(decoded.texel_of.iter().map(|t| (decoded.records_offset + *t as usize) as f32));
            for value in integers {
                assert_eq!(value, f16::from_f32(value).to_f32(), "{value} does not survive the texture");
                assert!(value <= F16_EXACT_INT as f32);
                biggest = biggest.max(value);
            }
        }
    }
    assert!(biggest > 0.0, "some glyph should have been banded");
}

#[test]
fn a_glyph_too_big_to_address_in_f16_gives_up_its_band_tables() {
    let ranges: Vec<([f32; 2], [f32; 2])> = (0..2100)
        .map(|i| {
            let t = i as f32 / 2100.0;
            ([t, t + 0.001], [t, t + 0.001])
        })
        .collect();
    let all = curves_spanning(&ranges);
    let contours = vec![1u32; ranges.len()];
    let bbox = [0.0, 0.0, 1.0, 1.0];

    let fits = ranges.len() / 4;
    let some = all[..fits].to_vec();
    assert!(
        banded_block(&some, None, &contours[..fits].to_vec(), &table_of(&some, None, bbox)).is_some(),
        "a few hundred curves address fine"
    );
    assert!(
        banded_block(&all, None, &contours, &table_of(&all, None, bbox)).is_none(),
        "past 2048 texels the block cannot be banded"
    );

    // The store keeps such a glyph all the same, flat.
    let mut store = CurveStore::new(LIMIT);
    let stored = store.get_or_insert(key_of(1), Some(&outline_of(all, None, contours, 0.0))).unwrap();
    assert!(!stored.banded);
    assert_eq!(stored.texels, 4200);
}

#[test]
fn shader_constants_match_the_record_layout() {
    let src = "const CURVE_TEX_WIDTH: u32 = 256u;\n\
               const BANDS: u32 = 8u;\n\
               const BAND_ENTRY_TEXELS: u32 = 1u;\n\
               const BANDED_FLAG: u32 = 0x80000000u;\n";
    for expected in [
        format!("const CURVE_TEX_WIDTH: u32 = {CURVE_TEX_WIDTH}u;"),
        format!("const BANDS: u32 = {BANDS}u;"),
        format!("const BAND_ENTRY_TEXELS: u32 = {BAND_ENTRY_TEXELS}u;"),
        format!("const BANDED_FLAG: u32 = 0x{BANDED_FLAG:08X}u;"),
    ] {
        assert!(src.contains(&expected), "the shader is missing `{expected}`");
    }
}

/// A glyph's block split into band tables and the two masters' regions.
fn masters(store: &CurveStore, curves: &GlyphCurves) -> (Vec<f32>, Vec<f32>, Vec<f32>) {
    let block = slice_of(store, curves);
    let region = curves.record_texels as usize * FLOATS_PER_TEXEL;
    let masters = if curves.dual_master { 2 } else { 1 };
    let head = block.len() - masters * region;
    (block[..head].to_vec(), block[head..head + region].to_vec(), block[head + region..].to_vec())
}

#[test]
fn a_static_face_stores_one_master_and_keeps_the_b_first_fast_path() {
    let mut store = CurveStore::new(LIMIT);
    store.begin_frame(1);

    let curves = get(&mut store, 36).expect("'A' has an outline");
    assert!(!curves.dual_master);
    assert_eq!(curves.b_first(), 0, "the shader must skip the second fetch");
    assert_eq!(f32::from_bits(curves.weight_t), 0.0);
    let (_, a, b) = masters(&store, &curves);
    assert!(b.is_empty(), "no second master to store");
    assert_eq!(a.len(), curves.record_texels as usize * FLOATS_PER_TEXEL);
}

#[test]
fn a_variable_face_stores_both_masters_in_parallel_regions() {
    let mut store = CurveStore::new(LIMIT);
    store.begin_frame(1);

    let mut seen_flat = false;
    let mut seen_banded = false;
    for n in 4..40u16 {
        let outline = variable_outline(n as usize, 4, 1.0 / 3.0);
        let curves = store.get_or_insert(key_of(n), Some(&outline)).unwrap();
        seen_flat |= !curves.banded;
        seen_banded |= curves.banded;

        assert!(curves.dual_master);
        if curves.banded {
            assert!(
                (curves.count + 1..=curves.count * TEXELS_PER_CURVE as u32).contains(&curves.record_texels),
                "a shared region is a texel per curve plus one per contour"
            );
        } else {
            assert_eq!(curves.record_texels as usize, curves.count as usize * TEXELS_PER_CURVE);
        }
        assert_eq!(curves.b_first(), curves.first + curves.record_texels);
        assert_eq!(curves.first % 2, 0, "records must not straddle a row");
        assert_eq!(curves.texels % 2, 0);
        assert!((f32::from_bits(curves.weight_t) - 1.0 / 3.0).abs() < 1e-6, "wght 400 of 200..800");

        let (_, a, b) = masters(&store, &curves);
        assert_eq!(a.len(), b.len(), "the masters are point-for-point parallel");
        assert_ne!(a, b, "the axis ends are different shapes");
        let bbox = curves.bbox.map(f32::from_bits);
        for point in a.chunks_exact(2).chain(b.chunks_exact(2)).filter(|p| **p != [0.0, 0.0]) {
            assert!(point[0] >= bbox[0] && point[0] <= bbox[2]);
            assert!(point[1] >= bbox[1] && point[1] <= bbox[3]);
        }
    }
    assert!(seen_flat && seen_banded, "both block shapes should appear");
}

#[test]
fn band_lists_of_a_dual_master_glyph_index_master_a_and_cover_master_b() {
    let mut store = CurveStore::new(LIMIT);
    store.begin_frame(1);
    let outline = variable_outline(24, 8, 0.5);
    let banded = store.get_or_insert(key_of(7), Some(&outline)).unwrap();
    assert!(banded.banded);

    let block = slice_of(&store, &banded);
    let decoded = decode_bands(&block, &banded);
    let records_offset = decoded.records_offset;
    let a_texels = banded.record_texels as usize;
    let a = curves_at(&block, records_offset, &decoded.texel_of);
    let b = curves_at(&block, records_offset + a_texels, &decoded.texel_of);
    assert_eq!(a, outline.a);
    assert_eq!(Some(&b), outline.b.as_ref());

    for slot in 0..2 * BANDS {
        let entry = &block[slot * FLOATS_PER_TEXEL..][..FLOATS_PER_TEXEL];
        let len = entry[1] as usize;
        for list in [entry[0] as usize, entry[3] as usize] {
            for i in 0..len {
                let texel = block[list * FLOATS_PER_TEXEL + i] as usize;
                assert!(
                    (records_offset..records_offset + a_texels).contains(&texel),
                    "band {slot} points outside master A's records"
                );
            }
        }
    }
    let bbox = banded.bbox.map(f32::from_bits);
    let along = values(&spans(&a, Some(&b), Axis::Y));
    for (slot, list) in band_lists(&ranges_of(&along, bbox[1], bbox[3])).iter().enumerate() {
        let expected = block[slot * FLOATS_PER_TEXEL + 1] as usize;
        assert_eq!(list.len(), expected, "y-band {slot} lost curves");
    }

    let ray_spans = values(&spans(&a, Some(&b), Axis::X));
    for (slot, band) in table_of(&a, Some(&b), bbox)[..BANDS].iter().enumerate() {
        for pair in band.descending.windows(2) {
            assert!(
                ray_spans[pair[0] as usize].1 >= ray_spans[pair[1] as usize].1,
                "y-band {slot} is not descending by the two-master maximum"
            );
        }
        for pair in band.ascending.windows(2) {
            assert!(
                ray_spans[pair[0] as usize].0 <= ray_spans[pair[1] as usize].0,
                "y-band {slot} is not ascending by the two-master minimum"
            );
        }
    }
}

#[test]
fn a_glyph_without_an_outline_is_remembered_and_a_blank_one_draws_nothing() {
    let mut store = CurveStore::new(LIMIT);
    store.begin_frame(1);
    assert!(store.get(key_of(1)).is_none());
    assert!(store.get_or_insert(key_of(1), None).is_none());
    assert!(matches!(store.get(key_of(1)), Some(None)));

    let blank = Outline { a: vec![], b: None, contours: vec![], table: None, bbox: [1, 2, 3, 4], weight_t: 5 };
    let curves = store.get_or_insert(key_of(2), Some(&blank)).unwrap();
    assert_eq!(curves.count, 0);
    assert_eq!(curves.texels, 0);
    assert_eq!(curves.bbox, [0; 4]);
    assert!(store.data().is_empty());
    assert!(store.flush().is_none());
}

#[test]
fn touching_an_entry_keeps_it_through_a_compaction() {
    let mut store = CurveStore::with_size(CURVE_TEX_WIDTH, 2, 2, LIMIT);
    store.begin_frame(1);
    let held = get(&mut store, 36).unwrap();
    let data = slice_of(&store, &held);
    let mut frame = 2;
    let mut glyph_id = 37;
    while !store.overflowed() {
        store.begin_frame(frame);
        get(&mut store, glyph_id);
        glyph_id += 1;
        frame += 1;
    }
    // Stamped before the frame that compacts.
    store.touch(&key_of(36), frame);
    store.begin_frame(frame);
    let moved = store.get(key_of(36)).expect("a touched glyph survives").unwrap();
    assert_eq!(slice_of(&store, &moved), data);
    assert_eq!(store.relocation(held.first), Some(moved.first));
}

#[test]
fn a_store_counts_its_bytes() {
    let mut store = CurveStore::with_size(CURVE_TEX_WIDTH, 2, 64, LIMIT);
    assert_eq!(store.memory(), (0, 256 * 2 * 8));
    let curves = store.get_or_insert(key_of(1), Some(&glyph_outline(4, 4))).unwrap();
    assert_eq!(curves.texels, 16);
    assert_eq!(store.memory(), (16 * 8, 256 * 2 * 8));
}

#[test]
fn a_device_limit_caps_the_height_and_the_height_is_never_below_the_start() {
    assert_eq!(CurveStore::new(LIMIT).size(), (256, 2048));
    let mut store = CurveStore::with_size(CURVE_TEX_WIDTH, 2, 64, 4);
    for glyph_id in 36..200 {
        get(&mut store, glyph_id);
    }
    assert_eq!(store.size().1, 4);
    let mut store = CurveStore::with_size(CURVE_TEX_WIDTH, 4, 64, 2);
    for glyph_id in 36..200 {
        get(&mut store, glyph_id);
    }
    assert_eq!(store.size().1, 4);
}

#[test]
fn the_threshold_can_be_raised_and_a_flat_block_holds_the_same_curves() {
    let outline = glyph_outline(20, 4);
    let mut store = CurveStore::new(LIMIT);
    store.set_band_min_curves(u32::MAX);
    assert_eq!(store.band_min_curves(), u32::MAX);
    let flat = store.get_or_insert(key_of(1), Some(&outline)).unwrap();
    assert!(!flat.banded);
    assert_eq!(store.data(), flat_block(&outline.a, None).as_slice());
    assert_eq!(store.data().len(), 24 * FLOATS_PER_CURVE);
    for (record, c) in store.data().chunks_exact(FLOATS_PER_CURVE).zip(&outline.a) {
        assert_eq!(record, [c.x0, c.y0, c.x1, c.y1, c.x2, c.y2, 0, 0]);
    }
}

#[test]
fn shared_records_put_a_texel_per_curve_and_one_per_contour() {
    let a = [ring(3, 0.5, [0.5, 0.5]), ring(2, 0.25, [0.5, 0.5])].concat();
    let (lanes, texel_of) = shared_records(&a, &vec![3, 2]);
    assert_eq!(shared_texels(5, 2), 8);
    assert_eq!(lanes.len(), 8 * FLOATS_PER_TEXEL);
    assert_eq!(texel_of, vec![0, 1, 2, 4, 5]);
    assert_eq!(&lanes[..4], [a[0].x0, a[0].y0, a[0].x1, a[0].y1]);
    assert_eq!(&lanes[12..16], [a[2].x2, a[2].y2, 0, 0], "the first contour's end");
    assert_eq!(&lanes[28..], [0, 0, 0, 0], "padded to even");
}

#[test]
fn bounds_cover_both_masters() {
    let a = vec![curve([[0.25, 0.5], [0.5, -0.25], [0.75, 0.5]]), curve([[0.75, 0.5], [0.5, 0.625], [0.25, 0.5]])];
    let alone = bounds(&a, None);
    assert_eq!(alone, Bounds { left: half(0.25), bottom: half(-0.25), right: half(0.75), top: half(0.625) });
    let b = vec![curve([[0.0, 0.5], [0.5, -0.5], [1.0, 0.5]]), curve([[1.0, 0.5], [0.5, 0.5], [0.0, 0.5]])];
    let both = bounds(&a, Some(&b));
    assert_eq!(both, Bounds { left: half(0.0), bottom: half(-0.5), right: half(1.0), top: half(0.625) });
}

#[test]
fn a_master_of_another_length_is_left_out() {
    let a = ring(6, 0.5, [0.5, 0.5]);
    assert_eq!(second_master(&a, Some(ring(6, 0.25, [0.5, 0.5]))).map(|b| b.len()), Some(6));
    assert!(second_master(&a, Some(ring(5, 0.25, [0.5, 0.5]))).is_none());
    assert!(second_master(&a, None).is_none());
}

#[test]
fn bands_along_y_are_sorted_along_x_and_the_other_way_round() {
    // Two boxes side by side at one height: the left one first in the ascending list.
    let a = curves_spanning(&[([0.5, 1.0], [0.0, 1.0]), ([0.0, 0.25], [0.0, 1.0])]);
    let bbox = bbox_of(&a, None);
    let table = table_of(&a, None, bbox);
    assert_eq!(table.len(), 2 * BANDS);
    for band in &table[..BANDS] {
        assert_eq!(band.ascending, [1, 0], "the left curve has the lower x");
        assert_eq!(band.descending, [0, 1]);
    }
    assert_eq!(table[BANDS].ascending, [1], "only the left curve reaches the first x band");
    assert_eq!(table[2 * BANDS - 1].ascending, [0]);
}

#[test]
fn rows_written_as_they_are_due_leave_the_texture_equal_to_the_data() {
    let mut store = CurveStore::with_size(16, 64, 64, LIMIT);
    let mut texture = vec![0xffffu16; 16 * 64 * FLOATS_PER_TEXEL];
    for glyph_id in 1..6 {
        get(&mut store, glyph_id).expect("there is room");
        let due = store.flush().expect("a new glyph is due");
        let row = floats_per_row(16);
        let start = due.start_row as usize * row;
        texture[start..start + due.halves.len()].copy_from_slice(&due.halves);
        assert_eq!(&texture[..store.data().len()], store.data());
    }
    assert!(store.flush().is_none());
}

#[test]
fn glyphs_of_the_newest_frame_survive_where_they_are_no_more_than_half() {
    let mut store = CurveStore::with_size(CURVE_TEX_WIDTH, 8, 8, LIMIT);
    store.begin_frame(1);
    let mut stored = Vec::new();
    for glyph_id in 0.. {
        if get(&mut store, glyph_id).is_none() {
            break;
        }
        stored.push(glyph_id);
    }
    assert!(store.overflowed());
    let held: Vec<u16> = stored.iter().copied().take(stored.len() / 2).collect();
    for glyph_id in &held {
        store.touch(&key_of(*glyph_id), 2);
    }
    store.begin_frame(2);
    for glyph_id in &held {
        assert!(store.get(key_of(*glyph_id)).is_some(), "glyph {glyph_id} was stamped");
    }
}

#[test]
fn halves_stand_for_numbers_in_units_of_the_least() {
    assert_eq!(half_number_of(half(0.0)), 0);
    assert_eq!(half_number_of(half(-0.0)), 0);
    assert_eq!(half_number_of(0x0001), 1);
    assert_eq!(half_number_of(0x03FF), 1023);
    assert_eq!(half_number_of(0x0400), 1024);
    assert_eq!(half_number_of(half(1.0)), 1 << 24);
    assert_eq!(half_number_of(half(-1.0)), -(1 << 24));
    assert_eq!(half_number_of(half(0.75)), 3 << 22);
    assert_eq!(half_number_of(half(65504.0)), 65504 << 24);
    for bits in (0..0xFFFFu32).step_by(7) {
        let bits = bits as u16;
        if is_number_half(bits) {
            assert_eq!(half_number_of(bits) as f64, value(bits) as f64 * (1u64 << 24) as f64);
        }
    }
    assert!(!is_number_half(half(f32::INFINITY)));
    assert!(!is_number_half(half(f32::NAN)));
    assert!(is_number_half(half(-65504.0)));
}

#[test]
fn a_curve_joins_every_band_that_it_reaches() {
    let curves = curves_spanning(&[
        ([0.0, 1.0], [0.0, 8.0]),
        ([0.0, 1.0], [2.5, 4.5]),
        ([0.0, 1.0], [3.0, 3.0]),
        ([0.0, 1.0], [5.25, 5.5]),
    ]);
    let range = |first: usize, last: usize| BandRange { first, last };
    let along = spans(&curves, None, Axis::Y);
    let extent = (half(0.0), half(8.0));
    // Ranges that leave bands out are widened.
    let short = vec![range(0, 0), range(3, 3), range(3, 3), range(7, 7)];
    assert_eq!(joined_bands(&short, &along, extent), vec![
        range(0, 7),
        range(2, 4),
        range(2, 3),
        range(5, 7),
    ]);
    // Those that do not stay as they are.
    let given = ranges_of(&values(&along), 0.0, 8.0);
    assert_eq!(joined_bands(&given, &along, extent), given);
    // A glyph without height is in the first band.
    let flat = curves_spanning(&[([0.0, 1.0], [2.0, 2.0]), ([0.5, 1.0], [2.0, 2.0])]);
    let along = spans(&flat, None, Axis::Y);
    let given = ranges_of(&values(&along), 2.0, 2.0);
    assert_eq!(given, vec![range(0, 0), range(0, 0)]);
    assert_eq!(joined_bands(&given, &along, (half(2.0), half(2.0))), given);
    // Nothing is known of an extent that is not of numbers.
    let endless = (half(0.0), half(f32::INFINITY));
    assert_eq!(joined_bands(&given, &along, endless), given);
}

#[test]
fn rounded_band_ranges_take_in_what_the_curves_reach() {
    let mut seed = 12345u32;
    let mut next = || {
        seed = seed.wrapping_mul(1_664_525).wrapping_add(1_013_904_223);
        seed >> 16
    };
    for scale in [0.001f32, 0.7, 1.0, 37.0, 4000.0] {
        let mut given = Vec::new();
        for _ in 0..60 {
            let mut coordinate = || (next() as f32 / 65536.0 - 0.3) * scale;
            given.push(([coordinate(), coordinate()], [coordinate(), coordinate()]));
        }
        let curves = curves_spanning(&given);
        let bbox = bbox_of(&curves, None);
        for (axis, at) in [(Axis::X, 0), (Axis::Y, 1)] {
            let along = spans(&curves, None, axis);
            let ranges = ranges_of(&values(&along), bbox[at], bbox[at + 2]);
            let extent = (half(bbox[at]), half(bbox[at + 2]));
            assert_eq!(joined_bands(&ranges, &along, extent), ranges);
        }
    }
}
