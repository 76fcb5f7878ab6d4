use faf_text::bands::{bands, spans, Axis, Band, BandRange, Curve, BANDS, HEADER_TEXELS};
use faf_text::colr::ColorLayer;
use faf_text::curves::{CurveStore, GlyphKey, Outline};
use faf_text::inspect::{face_by_family, families, inspect_glyph, inspect_outline, TexelLayout};
use half::f16;

fn half(v: f32) -> u16 {
    f16::from_f32(v).to_bits()
}

fn value(bits: u16) -> f32 {
    f16::from_bits(bits).to_f32()
}

/// A closed ring of `n` curves.
fn ring(n: usize, radius: f32) -> Vec<Curve> {
    let at = |i: usize| {
        let t = (i % n) as f32 / n as f32 * std::f32::consts::TAU;
        (half(0.5 + radius * t.cos()), half(0.5 + radius * t.sin()))
    };
    (0..n)
        .map(|i| {
            let ((x0, y0), (x2, y2)) = (at(i), at(i + 1));
            Curve { x0, y0, x1: x0, y1: y0, x2, y2 }
        })
        .collect()
}

fn axis_table(a: &Vec<Curve>, b: Option<&Vec<Curve>>, axis: Axis, ray: Axis) -> Vec<Band> {
    let ranges = spans(a, b, axis)
        .iter()
        .map(|(lo, hi)| BandRange {
            first: (value(*lo) * 8.0).floor().clamp(0.0, 7.0) as usize,
            last: (value(*hi) * 8.0).floor().clamp(0.0, 7.0) as usize,
        })
        .collect();
    let along = spans(a, b, ray);
    let mids = along.iter().map(|(lo, hi)| half((value(*lo) + value(*hi)) * 0.5)).collect();
    bands(&ranges, &along, &mids)
}

fn outline(n: usize, second: bool) -> Outline {
    let a = ring(n, 0.4);
    let b = second.then_some(ring(n, 0.5));
    let mut table = axis_table(&a, b.as_ref(), Axis::Y, Axis::X);
    table.extend(axis_table(&a, b.as_ref(), Axis::X, Axis::Y));
    Outline { a, b, contours: vec![n as u32], table: Some(table), bbox: [0, 0, 1, 1], weight_t: 3 }
}

#[test]
fn inspection_matches_what_the_store_extracts() {
    for (n, second) in [(4, false), (4, true), (28, false), (28, true)] {
        let shape = outline(n, second);
        let inspected = inspect_outline(&shape, 16);
        let mut store = CurveStore::new(8192);
        let stored = store.get_or_insert(GlyphKey::new(1, 1, 400, 0), Some(&shape)).unwrap();
        assert_eq!(inspected.count, stored.count);
        assert_eq!(inspected.bbox, stored.bbox);
        assert_eq!(inspected.banded, stored.banded);
        assert_eq!(inspected.layout.record_texels, stored.record_texels);
        assert_eq!(inspected.layout.total_texels, stored.texels);
    }
}

#[test]
fn g_is_banded_and_quantization_deltas_are_measurable() {
    let g = inspect_outline(&outline(28, false), 16);
    assert!(g.count > 16);
    assert!(g.banded);
    let bands = g.bands.as_ref().expect("banded means tables");
    assert_eq!(bands.y.len(), BANDS);
    assert_eq!(bands.x.len(), BANDS);
    for band in bands.y.iter().chain(&bands.x) {
        assert_eq!(band.descending.len(), band.ascending.len());
        assert!(band.descending.windows(2).all(|w| value(w[0].key) >= value(w[1].key)));
        assert!(band.ascending.windows(2).all(|w| value(w[0].key) <= value(w[1].key)));
    }
    assert_eq!(g.layout.masters, 1);
    assert_eq!(g.layout.header_texels, HEADER_TEXELS as u32);
    assert_eq!(g.layout.total_texels, g.layout.records_offset + g.layout.record_texels);
    assert_eq!(g.layout.records_offset, g.layout.header_texels + g.layout.index_texels);
}

#[test]
fn manrope_carries_a_second_master() {
    let shape = outline(28, true);
    let g = inspect_outline(&shape, 16);
    let b = shape.b.as_ref().expect("there are two masters");
    assert_eq!(b.len(), g.count as usize);
    assert_eq!(g.layout.masters, 2);
    assert_eq!(g.layout.total_texels, g.layout.records_offset + 2 * g.layout.record_texels);
}

#[test]
fn the_rocket_reports_its_layer_stack() {
    let layers: Vec<(ColorLayer, Option<Outline>)> = (14..20)
        .map(|glyph_id| (ColorLayer { glyph_id, color: Some((160, 4, 30, 255)) }, Some(outline(5, false))))
        .collect();
    let rocket = inspect_glyph(None, Some(&layers), 16).expect("🚀 has layers");
    assert_eq!(rocket.glyph.layout, TexelLayout {
        header_texels: 0,
        index_texels: 0,
        records_offset: 0,
        record_texels: 0,
        total_texels: 0,
        masters: 1,
    });
    assert!(rocket.glyph.bands.is_none());
    let stack = rocket.colr.as_ref().expect("🚀 is COLR");
    assert_eq!(stack.len(), 6);
    for (i, layer) in stack.iter().enumerate() {
        assert_eq!(layer.glyph_id, 14 + i as u16);
        assert_eq!(layer.glyph.count, 5, "layers are real outlines");
        assert_eq!(layer.color, Some((160, 4, 30, 255)));
    }
}

#[test]
fn a_glyph_with_neither_outline_nor_layers_has_nothing_to_show() {
    assert!(inspect_glyph(None, None, 16).is_none());
    let plain = inspect_glyph(Some(&outline(4, false)), None, 16).unwrap();
    assert!(plain.colr.is_none());
    assert_eq!(plain.glyph.layout, TexelLayout {
        header_texels: 0,
        index_texels: 0,
        records_offset: 0,
        record_texels: 8,
        total_texels: 8,
        masters: 1,
    });
    let layer = vec![(ColorLayer { glyph_id: 3, color: None }, None)];
    let missing = inspect_glyph(Some(&outline(4, false)), Some(&layer), 16).unwrap();
    assert_eq!(missing.colr.unwrap()[0].glyph.count, 0);
}

#[test]
fn families_are_listed_once_in_order_and_the_last_face_wins() {
    let names: Vec<String> = ["Sans", "Mono", "Sans", "Serif", "Mono"].iter().map(|s| s.to_string()).collect();
    assert_eq!(families(&names), vec!["Sans", "Mono", "Serif"]);
    assert!(families(&vec![]).is_empty());
    let faces: Vec<Vec<String>> =
        vec![vec!["Sans".into()], vec!["Mono".into(), "Sans".into()], vec!["Serif".into()]];
    assert_eq!(face_by_family(&faces, &"Sans".to_string()), Some(1));
    assert_eq!(face_by_family(&faces, &"Serif".to_string()), Some(2));
    assert_eq!(face_by_family(&faces, &"Other".to_string()), None);
}
