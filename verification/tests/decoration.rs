use faf_text::decoration::{dominant_glyph, LineMetrics, LineMetricsCache};

fn em(metrics: LineMetrics) -> [f32; 3] {
    [
        f32::from_bits(metrics.underline_offset),
        f32::from_bits(metrics.strikeout_offset),
        f32::from_bits(metrics.thickness),
    ]
}

#[test]
fn decoration_rects_hang_off_the_faces_own_metrics() {
    let read = LineMetrics::of_face(
        true,
        (-40.0f32 / 2048.0).to_bits(),
        (530.0f32 / 2048.0).to_bits(),
        (90.0f32 / 2048.0).to_bits(),
    );
    assert_eq!(em(read), [-40.0 / 2048.0, 530.0 / 2048.0, 90.0 / 2048.0]);

    let mut cache = LineMetricsCache::new();
    let fonts = vec![7, 7, 9, 7, 9];
    assert_eq!(cache.missing(&fonts), vec![0, 2], "each font is read once");
    cache.insert(7, read);
    assert_eq!(cache.missing(&fonts), vec![2]);
    cache.insert(9, LineMetrics::fallback());
    assert!(cache.missing(&fonts).is_empty());
    assert_eq!(em(cache.line_metrics(7)), em(read));
}

#[test]
fn a_face_without_metrics_falls_back_to_the_em_defaults() {
    let fallback = em(LineMetrics::fallback());
    assert_eq!(fallback, [-0.1, 0.28, 0.06]);
    assert_eq!(em(LineMetrics::of_face(false, 1, 2, 3)), fallback);
    assert_eq!(em(LineMetrics::of_face(true, 0, 0.5f32.to_bits(), (-0.0f32).to_bits())), [-0.1, 0.5, 0.06]);
    assert_eq!(em(LineMetricsCache::new().line_metrics(4)), fallback);
}

#[test]
fn the_largest_covered_glyph_sets_the_metrics() {
    let sizes: Vec<u32> = [12.0f32, 20.0, 20.0, 40.0].iter().map(|s| s.to_bits()).collect();
    assert_eq!(dominant_glyph(&vec![true, true, true, false], &sizes), Some(2), "the last of equals");
    assert_eq!(dominant_glyph(&vec![false; 4], &sizes), Some(0), "the first where none is covered");
    assert_eq!(dominant_glyph(&vec![true; 4], &sizes), Some(3));
    assert_eq!(dominant_glyph(&vec![], &vec![]), None);
}
