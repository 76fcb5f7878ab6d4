use faf_text::atlas::{pack_image, to_rgba, Atlas, AtlasKey, GlyphImage, ImageContent, ATLAS_SIZE, MAX_PLACED};

const SIZE: u32 = 128;

fn key(glyph_id: u16) -> AtlasKey {
    AtlasKey { font: 1, glyph_id, size: 20.0f32.to_bits(), bins: 0, weight: 400, flags: 0 }
}

/// A glyph's mask, of a size that depends on the glyph.
fn image(glyph_id: u16) -> GlyphImage {
    let width = 8 + glyph_id as u32 % 9;
    let height = 10 + glyph_id as u32 % 5;
    GlyphImage {
        left: 1,
        top: height as i32 - 2,
        width,
        height,
        content: ImageContent::Mask,
        data: vec![glyph_id as u8; (width * height) as usize],
    }
}

fn fill(atlas: &mut Atlas) -> (Vec<u16>, u16) {
    let mut packed = Vec::new();
    for glyph_id in 36..500 {
        if atlas.get_or_insert(key(glyph_id), Some(&image(glyph_id))).0.is_some() {
            packed.push(glyph_id);
        }
        if atlas.needs_reset() {
            return (packed, glyph_id);
        }
    }
    panic!("the atlas never filled up");
}

#[test]
fn a_full_atlas_of_live_glyphs_resets_at_the_next_frame_edge() {
    let mut atlas = Atlas::with_size(SIZE);

    atlas.begin_frame(1);
    let (packed, _) = fill(&mut atlas);
    assert!(!packed.is_empty());
    assert!(atlas.len() > 0, "nothing is evicted mid-frame");
    let generation = atlas.generation();

    atlas.begin_frame(2);
    assert!(!atlas.needs_reset());
    assert_eq!(atlas.len(), 0, "the entry map is wiped");
    assert!(atlas.is_empty(), "so is the shelf allocator");
    assert_eq!(atlas.generation(), generation + 1);
}

#[test]
fn stale_glyphs_are_evicted_to_make_room() {
    let mut atlas = Atlas::with_size(SIZE);

    atlas.begin_frame(1);
    let (packed, wall) = fill(&mut atlas);
    atlas.begin_frame(2);

    for glyph_id in &packed {
        assert!(atlas.get_or_insert(key(*glyph_id), Some(&image(*glyph_id))).0.is_some());
    }
    assert!(!atlas.needs_reset());
    assert_eq!(atlas.len(), packed.len());

    atlas.begin_frame(4);
    assert!(
        atlas.get_or_insert(key(wall), Some(&image(wall))).0.is_some(),
        "eviction should have freed room"
    );
    assert!(!atlas.needs_reset(), "no nuclear reset was needed");
    assert_eq!(atlas.len(), 1, "the stale glyphs are gone");
}

#[test]
fn glyphs_drawn_this_frame_survive_an_eviction_pass() {
    let mut atlas = Atlas::with_size(SIZE);

    atlas.begin_frame(1);
    let (packed, wall) = fill(&mut atlas);
    atlas.begin_frame(2);
    for glyph_id in &packed {
        atlas.get_or_insert(key(*glyph_id), Some(&image(*glyph_id)));
    }

    atlas.begin_frame(4);
    let live = key(packed[0]);
    let entry = atlas.get_or_insert(live, None).0.expect("still cached");
    atlas.get_or_insert(key(wall), Some(&image(wall)));
    let again = atlas.get_or_insert(live, None).0.expect("a glyph used this frame keeps its slot");
    assert_eq!((again.x, again.y), (entry.x, entry.y));
}

#[test]
fn glyphs_in_the_atlas_lie_apart_and_are_written_where_they_lie() {
    let mut atlas = Atlas::with_size(SIZE);
    atlas.begin_frame(1);
    let mut rects: Vec<(i32, i32, i32, i32)> = Vec::new();
    for glyph_id in 36..60 {
        let pixels = image(glyph_id);
        let (entry, write) = atlas.get_or_insert(key(glyph_id), Some(&pixels));
        let (entry, write) = (entry.unwrap(), write.unwrap());
        assert_eq!((write.x as i32, write.y as i32), (entry.x, entry.y));
        assert_eq!((write.width, write.height), (pixels.width, pixels.height));
        assert_eq!((entry.width, entry.height), (pixels.width as i32, pixels.height as i32));
        assert_eq!((entry.left, entry.top), (pixels.left, pixels.top));
        assert!(!entry.is_color);
        assert_eq!(write.rgba, to_rgba(pixels.content, &pixels.data));
        assert!(entry.x >= 1 && entry.y >= 1);
        assert!(entry.x + entry.width < SIZE as i32 && entry.y + entry.height < SIZE as i32);
        for (x, y, w, h) in &rects {
            let apart = entry.x + entry.width < *x
                || x + w < entry.x
                || entry.y + entry.height < *y
                || y + h < entry.y;
            assert!(apart, "glyph {glyph_id} touches another");
        }
        rects.push((entry.x, entry.y, entry.width, entry.height));
        // A second lookup writes nothing.
        assert!(atlas.get_or_insert(key(glyph_id), None).1.is_none());
    }
}

#[test]
fn a_glyph_with_no_image_or_no_pixels_is_remembered() {
    let mut atlas = Atlas::with_size(SIZE);
    atlas.begin_frame(1);
    assert!(atlas.get(key(1)).is_none());
    assert!(atlas.get_or_insert(key(1), None).0.is_none());
    assert!(matches!(atlas.get(key(1)), Some(None)));
    let blank =
        GlyphImage { left: 0, top: 0, width: 0, height: 5, content: ImageContent::Mask, data: vec![] };
    assert!(atlas.get_or_insert(key(2), Some(&blank)).0.is_none());
    assert!(matches!(atlas.get(key(2)), Some(None)));
    assert_eq!(atlas.len(), 2);
    assert!(atlas.is_empty());
}

#[test]
fn masks_become_white_with_coverage_as_alpha_and_colors_stay() {
    assert_eq!(to_rgba(ImageContent::Mask, &vec![0, 128, 255]), vec![
        255, 255, 255, 0, 255, 255, 255, 128, 255, 255, 255, 255
    ]);
    let color = GlyphImage {
        left: 3,
        top: 4,
        width: 1,
        height: 1,
        content: ImageContent::Color,
        data: vec![1, 2, 3, 4],
    };
    let (entry, bytes) = pack_image(&color, 10, 20);
    assert_eq!(bytes, vec![1, 2, 3, 4]);
    assert!(entry.is_color);
    assert_eq!((entry.x, entry.y), (11, 21), "a pixel of padding");
    assert_eq!((entry.left, entry.top), (3, 4));
}

#[test]
fn a_touched_glyph_outlives_an_eviction() {
    let mut atlas = Atlas::with_size(SIZE);
    atlas.begin_frame(1);
    let (packed, wall) = fill(&mut atlas);
    atlas.begin_frame(2);
    for glyph_id in &packed {
        atlas.get_or_insert(key(*glyph_id), Some(&image(*glyph_id)));
    }
    for id in &packed[..2] {
        atlas.touch(&key(*id), 4);
    }
    atlas.begin_frame(4);
    atlas.get_or_insert(key(wall), Some(&image(wall)));
    for id in &packed[..2] {
        assert!(matches!(atlas.get(key(*id)), Some(Some(_))));
    }
    assert!(atlas.get(key(packed[2])).is_none());
}

#[test]
fn an_atlas_starts_at_its_size() {
    let atlas = Atlas::new();
    assert_eq!(atlas.size(), ATLAS_SIZE);
    assert!(atlas.is_empty());
    assert_eq!(atlas.len(), 0);
}

#[test]
fn nothing_is_evicted_where_there_is_room_at_once() {
    let mut atlas = Atlas::with_size(SIZE);
    atlas.begin_frame(1);
    for glyph_id in 1..4 {
        assert!(atlas.get_or_insert(key(glyph_id), Some(&image(glyph_id))).0.is_some());
    }
    // Stale by far, and still there.
    atlas.begin_frame(9);
    assert!(atlas.get_or_insert(key(4), Some(&image(4))).0.is_some());
    for glyph_id in 1..5 {
        assert!(atlas.knows(key(glyph_id)));
    }
    assert!(!atlas.knows(key(5)));
    assert_eq!(atlas.len(), 4);
}

#[test]
fn an_atlas_keeps_a_limited_number_of_glyphs() {
    let mut atlas = Atlas::new();
    atlas.begin_frame(1);
    let dot =
        GlyphImage { left: 0, top: 0, width: 1, height: 1, content: ImageContent::Mask, data: vec![9] };
    for glyph_id in 0..MAX_PLACED {
        assert!(atlas.get_or_insert(key(glyph_id as u16), Some(&dot)).0.is_some(), "glyph {glyph_id}");
    }
    assert!(!atlas.needs_reset());
    assert!(atlas.get_or_insert(key(MAX_PLACED as u16), Some(&dot)).0.is_none());
    assert!(atlas.needs_reset());
    assert!(!atlas.knows(key(MAX_PLACED as u16)));
}

#[test]
fn an_image_larger_than_the_atlas_is_refused() {
    let mut atlas = Atlas::with_size(16);
    atlas.begin_frame(1);
    let side = |side: u32| GlyphImage {
        left: 0,
        top: 0,
        width: side,
        height: 1,
        content: ImageContent::Mask,
        data: vec![1; side as usize],
    };
    assert!(atlas.get_or_insert(key(1), Some(&side(15))).0.is_none());
    assert!(atlas.needs_reset());
    atlas.begin_frame(2);
    assert!(atlas.get_or_insert(key(1), Some(&side(14))).0.is_some());
}

#[test]
fn an_eviction_makes_room_beside_live_glyphs() {
    let mut atlas = Atlas::with_size(64);
    let tile = GlyphImage {
        left: 0,
        top: 0,
        width: 30,
        height: 30,
        content: ImageContent::Mask,
        data: vec![3; 900],
    };
    atlas.begin_frame(1);
    for glyph_id in 0..4 {
        assert!(atlas.get_or_insert(key(glyph_id), Some(&tile)).0.is_some());
    }
    // Full, and half of it is still in use.
    atlas.begin_frame(5);
    let kept = [atlas.get(key(0)).unwrap().unwrap(), atlas.get(key(1)).unwrap().unwrap()];
    let (entry, write) = atlas.get_or_insert(key(9), Some(&tile));
    let entry = entry.expect("the place of an evicted glyph is found on the second try");
    assert!(write.is_some() && !atlas.needs_reset());
    for other in kept {
        assert_ne!((entry.x, entry.y), (other.x, other.y));
    }
    assert_eq!(atlas.len(), 3);
}
