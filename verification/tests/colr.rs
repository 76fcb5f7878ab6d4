use faf_text::colr::{
    base_glyph_record, layer_list, read_layers, read_tables, read_u16, read_u32, BaseGlyph, ColorLayer, ColrCache,
    FOREGROUND_PALETTE_INDEX,
};

const FONT: u32 = 3;

fn rgb(hex: u32) -> (u8, u8, u8, u8) {
    ((hex >> 16) as u8, (hex >> 8) as u8, hex as u8, 255)
}

fn word(out: &mut Vec<u8>, n: u16) {
    out.extend_from_slice(&n.to_be_bytes());
}

fn long(out: &mut Vec<u8>, n: u32) {
    out.extend_from_slice(&n.to_be_bytes());
}

/// A table of layers, of some version: base records, then layer records.
fn colr_table(version: u16, bases: &[(u16, u16, u16)], layers: &[(u16, u16)]) -> Vec<u8> {
    let mut out = Vec::new();
    word(&mut out, version);
    word(&mut out, bases.len() as u16);
    long(&mut out, 14);
    long(&mut out, 14 + 6 * bases.len() as u32);
    word(&mut out, layers.len() as u16);
    for (glyph, first, count) in bases {
        word(&mut out, *glyph);
        word(&mut out, *first);
        word(&mut out, *count);
    }
    for (glyph, entry) in layers {
        word(&mut out, *glyph);
        word(&mut out, *entry);
    }
    out
}

/// A table of one palette, whose colors are stored blue first.
fn cpal_table(colors: &[u32]) -> Vec<u8> {
    let mut out = Vec::new();
    word(&mut out, 0);
    word(&mut out, colors.len() as u16);
    word(&mut out, 1);
    word(&mut out, colors.len() as u16);
    long(&mut out, 14);
    word(&mut out, 0);
    for color in colors {
        out.extend_from_slice(&[*color as u8, (*color >> 8) as u8, (*color >> 16) as u8, 255]);
    }
    out
}

/// A font file that holds some tables.
fn font_file(tables: &[(&[u8; 4], Vec<u8>)]) -> Vec<u8> {
    let mut out = Vec::new();
    long(&mut out, 0x0001_0000);
    word(&mut out, tables.len() as u16);
    for _ in 0..3 {
        word(&mut out, 0);
    }
    let mut at = 12 + 16 * tables.len() as u32;
    for (tag, data) in tables {
        out.extend_from_slice(*tag);
        long(&mut out, 0);
        long(&mut out, at);
        long(&mut out, data.len() as u32);
        at += data.len() as u32;
    }
    for (_, data) in tables {
        out.extend_from_slice(data);
    }
    out
}

const HEART: u16 = 5;
const ROCKET: u16 = 8;
const PALETTE: [u32; 6] = [0xDD2E44, 0xA0041E, 0xFFAC33, 0xFFCC4D, 0x55ACEE, 0x000000];

fn colr_bytes() -> Vec<u8> {
    colr_table(
        0,
        &[(HEART, 0, 1), (ROCKET, 1, 6)],
        &[(11, 0), (14, 1), (15, 2), (16, 3), (17, 4), (18, 5), (19, 1)],
    )
}

fn color_font() -> Vec<u8> {
    font_file(&[(b"COLR", colr_bytes()), (b"CPAL", cpal_table(&PALETTE))])
}

#[test]
fn layers_come_back_in_paint_order_with_their_palette_colors() {
    let font = color_font();
    let mut cache = ColrCache::default();
    let layers = cache.layers(FONT, ROCKET, Some((&font, 0))).expect("🚀 is COLR");
    let expected = [
        ColorLayer { glyph_id: 14, color: Some(rgb(0xA0041E)) },
        ColorLayer { glyph_id: 15, color: Some(rgb(0xFFAC33)) },
        ColorLayer { glyph_id: 16, color: Some(rgb(0xFFCC4D)) },
        ColorLayer { glyph_id: 17, color: Some(rgb(0x55ACEE)) },
        ColorLayer { glyph_id: 18, color: Some(rgb(0x000000)) },
        ColorLayer { glyph_id: 19, color: Some(rgb(0xA0041E)) },
    ];
    assert_eq!(layers.as_slice(), &expected);
    // The second time the file is not needed.
    assert_eq!(cache.layers(FONT, ROCKET, None).expect("cached").as_slice(), &expected);
    assert_eq!(cache.len(), 1);
}

#[test]
fn palette_entries_resolve_to_straight_rgba() {
    let font = color_font();
    let mut cache = ColrCache::default();
    let layers = cache.layers(FONT, HEART, Some((&font, 0))).expect("❤ is COLR");
    assert_eq!(layers.as_slice(), &[ColorLayer { glyph_id: 11, color: Some(rgb(0xDD2E44)) }]);
}

#[test]
fn a_glyph_with_no_base_record_has_no_layers() {
    let font = color_font();
    let mut cache = ColrCache::default();
    // Glyph 14 is the rocket's first layer.
    assert!(cache.layers(FONT, 14, Some((&font, 0))).is_none());
    assert_eq!(cache.font_is_colr(FONT), Some(true));
}

#[test]
fn an_outline_font_is_probed_once_and_leaves_no_per_glyph_entries() {
    let font = font_file(&[(b"glyf", vec![0; 8])]);
    let mut cache = ColrCache::default();
    assert_eq!(cache.font_is_colr(FONT), None);
    for glyph in 1..7 {
        assert!(cache.layers(FONT, glyph, Some((&font, 0))).is_none());
        assert!(cache.knows(FONT, glyph));
    }
    assert_eq!(cache.font_is_colr(FONT), Some(false));
    assert_eq!(cache.len(), 0);
}

#[test]
fn a_cbdt_color_font_reports_no_layers() {
    let font = font_file(&[(b"CBDT", vec![0, 3, 0, 0]), (b"CBLC", vec![0, 3, 0, 0])]);
    let mut cache = ColrCache::default();
    assert!(cache.layers(FONT, ROCKET, Some((&font, 0))).is_none());
    assert_eq!(cache.font_is_colr(FONT), Some(false));
}

#[test]
fn a_font_that_cannot_be_read_has_no_layers() {
    let mut cache = ColrCache::default();
    assert!(cache.layers(1, ROCKET, Some((&[1, 2, 3], 0))).is_none());
    assert!(cache.layers(2, ROCKET, None).is_none());
    assert_eq!(read_layers(&[], 0, ROCKET), (false, None));
}

#[test]
fn the_text_color_index_has_no_color_of_its_own() {
    let font = font_file(&[
        (b"COLR", colr_table(0, &[(2, 0, 2)], &[(7, FOREGROUND_PALETTE_INDEX), (8, 0)])),
        (b"CPAL", cpal_table(&[0x102030])),
    ]);
    let layers = vec![
        ColorLayer { glyph_id: 7, color: None },
        ColorLayer { glyph_id: 8, color: Some((0x10, 0x20, 0x30, 255)) },
    ];
    assert_eq!(read_layers(&font, 0, 2), (true, Some(layers)));
}

#[test]
fn gradients_are_not_layers_and_a_missing_palette_hides_them() {
    let gradients = colr_table(1, &[(2, 0, 1)], &[(7, 0)]);
    assert_eq!(read_tables(&gradients, &cpal_table(&[1]), 2), (false, None));
    let flat = colr_table(0, &[(2, 0, 1)], &[(7, 0)]);
    assert!(read_tables(&flat, &cpal_table(&[1]), 2).1.is_some());
    assert_eq!(read_tables(&flat, &cpal_table(&[1]), 3), (true, None));
    assert_eq!(read_tables(&flat, &[0, 0], 2), (false, None));
    assert_eq!(read_layers(&font_file(&[(b"COLR", flat)]), 0, 2), (false, None));
}

#[test]
fn base_records_are_found_by_halving_and_cut_off_tables_have_none() {
    let bases: Vec<(u16, u16, u16)> = (0..9).map(|i| (10 * i, i, i + 1)).collect();
    let table = colr_table(0, &bases, &[]);
    for (glyph, first, count) in &bases {
        let found: BaseGlyph = base_glyph_record(&table, *glyph).expect("recorded");
        assert_eq!((found.first_layer, found.num_layers), (*first, *count));
        assert!(base_glyph_record(&table, glyph + 1).is_none());
    }
    assert!(base_glyph_record(&table[..table.len() - 6], 80).is_none());
    assert!(layer_list(&table, &cpal_table(&[1]), base_glyph_record(&table, 0).unwrap()).is_none());
}

#[test]
fn numbers_are_big_endian_and_end_with_the_data() {
    let data = [1, 2, 3, 4, 5];
    assert_eq!(read_u16(&data, 0), Some(0x0102));
    assert_eq!(read_u16(&data, 3), Some(0x0405));
    assert_eq!(read_u16(&data, 4), None);
    assert_eq!(read_u32(&data, 1), Some(0x0203_0405));
    assert_eq!(read_u32(&data, 2), None);
}

#[test]
fn a_collection_that_overstates_its_faces_has_no_layers() {
    let mut file = b"ttcf".to_vec();
    long(&mut file, 0x0001_0000);
    long(&mut file, u32::MAX);
    file.extend_from_slice(&[0; 64]);
    let (usable, layers) = read_layers(&file, 0, HEART);
    assert!(!usable);
    assert!(layers.is_none());
    // One that merely has none is refused as well.
    file[8..12].copy_from_slice(&0u32.to_be_bytes());
    let (usable, layers) = read_layers(&file, 0, HEART);
    assert!(!usable);
    assert!(layers.is_none());
}
