use faf_text::atlas::{Atlas, AtlasKey, GlyphImage, ImageContent};
use faf_text::bands::Curve;
use faf_text::blocks::BlockId;
use faf_text::curves::{CurveStore, GlyphKey, Outline, CURVE_TEX_WIDTH};
use faf_text::color::Color;
use faf_text::renderer::{
    pick_color, pick_weight, AtlasGeometry, Frame, GlyphRoute, RectLayer, TextRenderer, VectorGeometry,
};
use faf_text::retained::{
    UploadStats, ATLAS, BLEND, CHIPS, COUNT_WORD, FIRST_WORD, LAYERS, LINES, OVER, UNDER, VECTOR,
};
use faf_text::scene::DecorationKind;

const WHITE: [u32; 4] = [0x3F80_0000; 4];

fn bits(v: f32) -> u32 {
    v.to_bits()
}

/// What a graphics device holds once the uploads were made.
struct Device {
    layers: Vec<Vec<u32>>,
    uniforms: Vec<(u32, u32)>,
    texture: Vec<u16>,
    globals: Option<(u32, u32)>,
    log: Vec<Option<u32>>,
}

impl Device {
    fn new() -> Device {
        Device {
            layers: vec![Vec::new(); LAYERS],
            uniforms: vec![(0, 0); 8],
            texture: Vec::new(),
            globals: None,
            log: Vec::new(),
        }
    }

    /// Makes a frame's uploads.
    fn apply(&mut self, renderer: &TextRenderer, frame: &Frame) {
        self.log.clear();
        if frame.globals.is_some() {
            self.globals = frame.globals;
        }
        if let Some(rows) = &frame.rows {
            let row = CURVE_TEX_WIDTH as usize * 4;
            let from = rows.start_row as usize * row;
            let to = from + rows.halves.len();
            if self.texture.len() < to {
                self.texture.resize(to, 0);
            }
            self.texture[from..to].copy_from_slice(&rows.halves);
        }
        if let Some(capacity) = frame.uniforms.grown {
            self.uniforms = vec![(0, 0); capacity as usize];
        }
        for upload in &frame.uniforms.uploads {
            self.uniforms[upload.slot as usize] = upload.offset;
        }
        for (layer, room) in &frame.content.grown {
            let stride = renderer.retained().layer(*layer).arena().stride() as usize;
            self.layers[*layer] = vec![0; *room as usize * stride];
        }
        for upload in &frame.content.uploads {
            let arena = renderer.retained().layer(upload.layer).arena();
            let stride = arena.stride() as usize;
            let from = upload.span.start as usize * stride;
            let to = from + upload.span.len as usize * stride;
            self.layers[upload.layer][from..to].copy_from_slice(&arena.words()[from..to]);
            self.log.push(upload.block);
        }
    }

    /// What a frame shows: every drawn instance, with the texels it refers to in place of
    /// where they are.
    fn picture(&self, renderer: &TextRenderer) -> Vec<(usize, (u32, u32), Vec<u32>)> {
        let mut shown = Vec::new();
        for draw in renderer.draws() {
            let stride = renderer.retained().layer(draw.layer).arena().stride() as usize;
            for i in draw.span.start..draw.span.start + draw.span.len {
                let at = i as usize * stride;
                let mut words = self.layers[draw.layer][at..at + stride].to_vec();
                if draw.layer == VECTOR {
                    let first = words[FIRST_WORD] as usize * 4;
                    let count = words[COUNT_WORD] as usize;
                    words[FIRST_WORD] = 0;
                    if count > 0 {
                        let texels = &self.texture[first..first + count * 8];
                        words.extend(texels.iter().map(|t| *t as u32));
                    }
                }
                shown.push((draw.layer, self.uniforms[draw.slot as usize], words));
            }
        }
        shown
    }
}

fn renderer(height: u32, max_height: u32) -> TextRenderer {
    TextRenderer::new(CurveStore::with_size(CURVE_TEX_WIDTH, height, max_height, 8192), Atlas::with_size(64))
}

/// A glyph of `n` curves, whose points tell it from other glyphs.
fn outline(ch: char, n: usize) -> Outline {
    let a = (0..n)
        .map(|i| Curve { x0: ch as u16, y0: i as u16, x1: 1, y1: 2, x2: 3, y2: 4 })
        .collect();
    Outline { a, b: None, contours: vec![n as u32], table: None, bbox: [0, 0, bits(1.0), bits(1.0)], weight_t: 0 }
}

fn key(ch: char) -> GlyphKey {
    GlyphKey::new(1, ch as u16, 400, 0)
}

fn geometry(x: f32, y: f32) -> VectorGeometry {
    VectorGeometry {
        pos: (bits(x), bits(y)),
        size: (bits(8.0), bits(10.0)),
        em_pos: (0, 0),
        em_size: (bits(1.0), bits(1.0)),
        color: WHITE,
        band_scale: (bits(8.0), bits(8.0)),
        band_bias: (0, 0),
        weight_t: 0,
    }
}

/// Stages a line of glyphs, 12 curves each.
fn push_text(renderer: &mut TextRenderer, text: &str, pos: [f32; 2]) {
    for (i, ch) in text.chars().enumerate() {
        let shape = outline(ch, if ch == ' ' { 0 } else { 12 });
        if let GlyphRoute::Vector(glyph) = renderer.route_glyph(key(ch), Some(&shape)) {
            renderer.push_vector(&glyph, &geometry(pos[0] + 9.0 * i as f32, pos[1]));
        }
    }
}

fn set_text_block(renderer: &mut TextRenderer, id: BlockId, text: &str, pos: [f32; 2]) {
    assert!(renderer.stage(id));
    push_text(renderer, text, pos);
    assert!(renderer.has_room());
    renderer.commit(id);
}

fn set_rect_block(renderer: &mut TextRenderer, id: BlockId, rects: &[[f32; 4]]) {
    assert!(renderer.stage(id));
    for rect in rects {
        renderer.push_rect(rect.map(bits), WHITE, RectLayer::Under);
    }
    renderer.commit(id);
}

fn frame(renderer: &mut TextRenderer, device: &mut Device) -> Vec<(usize, (u32, u32), Vec<u32>)> {
    let frame = renderer.finish((bits(256.0), bits(256.0)));
    device.apply(renderer, &frame);
    device.picture(renderer)
}

#[test]
fn re_setting_one_block_leaves_the_other_alone() {
    let mut renderer = renderer(2048, 2048);
    let mut device = Device::new();
    let a = renderer.create_block();
    let b = renderer.create_block();
    renderer.begin_frame();
    set_text_block(&mut renderer, a, "retained", [6.0, 6.0]);
    set_text_block(&mut renderer, b, "damage", [6.0, 120.0]);
    let both = frame(&mut renderer, &mut device);
    assert_eq!(both.len(), 14, "the blocks drew something");

    renderer.begin_frame();
    assert!(!renderer.damaged(), "an untouched scene is not damaged");
    let idle = frame(&mut renderer, &mut device);
    assert_eq!(idle, both, "an idle frame renders the same");
    assert_eq!(renderer.upload_stats(), UploadStats::default());

    renderer.begin_frame();
    set_text_block(&mut renderer, b, "damage", [6.0, 120.0]);
    assert!(renderer.damaged());
    let again = frame(&mut renderer, &mut device);
    assert_eq!(again, both, "re-setting a block changed the frame");
    assert!(device.log.iter().all(|up| *up == Some(b.number())), "only the dirty block's ranges may upload");
    assert_eq!(renderer.upload_stats().content_writes, 1, "one vector range");
    assert_eq!(renderer.upload_stats().uniform_writes, 0);

    renderer.begin_frame();
    set_text_block(&mut renderer, b, "", [6.0, 120.0]);
    let without_b = frame(&mut renderer, &mut device);
    assert_eq!(without_b, both[..8], "block A must not move when block B is re-set");
}

#[test]
fn offset_only_frames_upload_no_content() {
    let mut renderer = renderer(2048, 2048);
    let mut device = Device::new();
    let block = renderer.create_block();
    renderer.begin_frame();
    set_text_block(&mut renderer, block, "scroll", [6.0, 6.0]);
    let base = frame(&mut renderer, &mut device);
    assert!(!base.is_empty());

    let mut content_writes = 0;
    for step in 1..=100 {
        renderer.begin_frame();
        renderer.set_block_offset(block, (bits(0.0), bits(step as f32)));
        assert!(renderer.damaged(), "a moved block still needs re-recording");
        let moved = frame(&mut renderer, &mut device);
        assert_eq!(moved[0].1, (bits(0.0), bits(step as f32)));
        content_writes += renderer.upload_stats().content_writes;
        assert_eq!(renderer.upload_stats().uniform_writes, 1);
    }
    assert_eq!(content_writes, 0, "scrolling must not re-upload instances");

    renderer.begin_frame();
    renderer.set_block_offset(block, (bits(0.0), bits(0.0)));
    assert_eq!(frame(&mut renderer, &mut device), base, "a block's offset must not disturb its instances");

    // The same offset again changes nothing.
    renderer.begin_frame();
    renderer.set_block_offset(block, (bits(0.0), bits(-0.0)));
    assert!(!renderer.damaged());
}

#[test]
fn dropping_blocks_repacks_the_arena_without_disturbing_the_survivors() {
    const KEPT: [usize; 3] = [1, 4, 7];
    let mut renderer = renderer(2048, 2048);
    let mut device = Device::new();
    let row = |i: usize| [6.0, 6.0 + i as f32 * 20.0, 60.0, 12.0];

    let blocks: Vec<BlockId> = (0..8).map(|_| renderer.create_block()).collect();
    renderer.begin_frame();
    for (i, &block) in blocks.iter().enumerate() {
        set_rect_block(&mut renderer, block, &[row(i)]);
    }
    frame(&mut renderer, &mut device);
    let filled = renderer.retained().layer(UNDER).arena().top();
    assert!(filled > 0);

    for (i, &block) in blocks.iter().enumerate() {
        if !KEPT.contains(&i) {
            renderer.drop_block(block);
        }
    }
    assert_eq!(renderer.retained().layer(UNDER).arena().freed(), 0, "the arena repacked");
    assert!(renderer.retained().layer(UNDER).arena().top() < filled);
    let survivors = frame(&mut renderer, &mut device);

    let mut fresh = self::renderer(2048, 2048);
    let mut other = Device::new();
    for i in KEPT {
        let block = fresh.create_block();
        fresh.begin_frame();
        set_rect_block(&mut fresh, block, &[row(i)]);
    }
    assert_eq!(survivors, frame(&mut fresh, &mut other));
    assert_eq!(survivors.len(), 3);
}

#[test]
fn hiding_a_block_costs_no_upload() {
    let mut renderer = renderer(2048, 2048);
    let mut device = Device::new();
    let block = renderer.create_block();
    renderer.begin_frame();
    set_text_block(&mut renderer, block, "visible", [6.0, 6.0]);
    let shown = frame(&mut renderer, &mut device);

    renderer.begin_frame();
    renderer.set_block_visible(block, false);
    assert!(renderer.damaged());
    let hidden = frame(&mut renderer, &mut device);
    assert!(hidden.is_empty(), "a hidden block draws nothing");
    assert_eq!(renderer.upload_stats(), UploadStats::default());

    renderer.begin_frame();
    renderer.set_block_visible(block, true);
    assert_eq!(frame(&mut renderer, &mut device), shown);
}

#[test]
fn retained_blocks_survive_a_curve_store_compaction() {
    // A capped store: the filler cannot fit, which forces a compaction.
    let mut renderer = renderer(2, 2);
    let mut device = Device::new();
    let block = renderer.create_block();
    renderer.begin_frame();
    set_text_block(&mut renderer, block, "Abg", [6.0, 6.0]);
    let before = frame(&mut renderer, &mut device);
    assert_eq!(before.len(), 3);

    renderer.begin();
    push_text(&mut renderer, "defhijklmnopqrstuvwxyz0123456789", [6.0, 120.0]);
    renderer.queue_transient();
    frame(&mut renderer, &mut device);
    assert!(renderer.curves().overflowed(), "the store should be out of room");

    renderer.begin();
    let after = frame(&mut renderer, &mut device);
    assert!(renderer.curves().generation() > 0, "compaction ran");
    assert_eq!(before, after, "a retained block must survive a curve relocation");
    assert!(!renderer.block_stale(block));
}

#[test]
fn immediate_mode_and_a_block_draw_the_same_pixels() {
    let mut immediate = renderer(2048, 2048);
    let mut device = Device::new();
    immediate.begin();
    push_text(&mut immediate, "compat", [6.0, 6.0]);
    immediate.queue_transient();
    let direct = frame(&mut immediate, &mut device);

    let mut retained = renderer(2048, 2048);
    let mut other = Device::new();
    let block = retained.create_block();
    retained.begin_frame();
    set_text_block(&mut retained, block, "compat", [6.0, 6.0]);
    assert_eq!(direct, frame(&mut retained, &mut other));
    assert_eq!(direct.len(), 6);
}

#[test]
fn overflow_at_the_cap_falls_back_without_corrupting_queued_glyphs() {
    let mut renderer = renderer(1, 1);
    let mut device = Device::new();
    let block = renderer.create_block();
    renderer.begin_frame();
    assert!(renderer.stage(block));
    let mut vectors = 0;
    let mut bitmaps = 0;
    for ch in 'a'..='z' {
        match renderer.route_glyph(key(ch), Some(&outline(ch, 12))) {
            GlyphRoute::Vector(glyph) => {
                renderer.push_vector(&glyph, &geometry(0.0, 0.0));
                vectors += 1;
            }
            GlyphRoute::Bitmap => bitmaps += 1,
            GlyphRoute::Blank => panic!("the glyphs have curves"),
        }
    }
    assert!(vectors > 0 && bitmaps > 0);
    renderer.commit(block);
    assert!(renderer.block_stale(block), "setting the content again may draw what is missing");
    let shown = frame(&mut renderer, &mut device);
    assert_eq!(shown.len(), vectors);
    for (i, (_, _, words)) in shown.iter().enumerate() {
        assert_eq!(words[20], 'a' as u32 + i as u32, "a queued glyph keeps its curves");
    }
}

fn atlas_key(glyph_id: u16) -> AtlasKey {
    AtlasKey { font: 1, glyph_id, size: bits(20.0), bins: 0, weight: 400, flags: 0 }
}

fn image(side: u32) -> GlyphImage {
    GlyphImage {
        left: 0,
        top: 0,
        width: side,
        height: side,
        content: ImageContent::Mask,
        data: vec![7; (side * side) as usize],
    }
}

#[test]
fn glyphs_of_a_wiped_atlas_are_blanked_and_their_block_is_stale() {
    let mut renderer = renderer(64, 64);
    let mut device = Device::new();
    let block = renderer.create_block();
    renderer.begin_frame();
    assert!(renderer.stage(block));
    assert!(renderer.needs_image(atlas_key(1)));
    let (entry, write) = renderer.atlas_glyph(atlas_key(1), Some(&image(20)));
    assert!(write.is_some());
    let entry = entry.unwrap();
    assert!(!renderer.needs_image(atlas_key(1)));
    renderer.push_atlas(entry.is_color, &AtlasGeometry {
        pos: (1, 2),
        size: (bits(20.0), bits(20.0)),
        uv_pos: (5, 6),
        uv_size: (7, 8),
        color: WHITE,
    });
    renderer.commit(block);
    let shown = frame(&mut renderer, &mut device);
    assert_eq!(shown.len(), 1);
    assert_eq!(shown[0].0, ATLAS);
    assert_eq!(shown[0].2[2], bits(20.0));

    // More than fits: the atlas is wiped at the next frame edge.
    for glyph_id in 2..30 {
        renderer.atlas_glyph(atlas_key(glyph_id), Some(&image(20)));
    }
    assert!(renderer.atlas().needs_reset());
    frame(&mut renderer, &mut device);
    renderer.begin_frame();
    assert!(renderer.block_stale(block));
    let blanked = frame(&mut renderer, &mut device);
    assert_eq!(blanked[0].2[2], 0, "the quad has no size");
    assert_eq!(blanked[0].2[3], 0);
}

#[test]
fn layers_are_drawn_bottom_to_top_and_blocks_in_the_order_they_were_made() {
    let mut renderer = renderer(64, 64);
    let mut device = Device::new();
    let first = renderer.create_block();
    let second = renderer.create_block();
    renderer.begin_frame();
    for id in [second, first] {
        assert!(renderer.stage(id));
        renderer.push_rect([0; 4], WHITE, RectLayer::Over);
        renderer.push_decoration([0; 4], DecorationKind::Underline, WHITE);
        renderer.push_decoration([0; 4], DecorationKind::Chip { radius_px: bits(4.0) }, WHITE);
        renderer.push_rect([0; 4], WHITE, RectLayer::Under);
        push_text(&mut renderer, "x y", [0.0, 0.0]);
        renderer.commit(id);
    }
    renderer.set_block_offset(second, (bits(1.0), bits(1.0)));
    let shown = frame(&mut renderer, &mut device);
    let order = [UNDER, CHIPS, VECTOR, VECTOR, LINES, OVER];
    let layers: Vec<usize> = shown.iter().map(|s| s.0).collect();
    assert_eq!(layers, [order, order].concat());
    assert!(shown[..6].iter().all(|s| s.1 == (0, 0)));
    assert!(shown[6..].iter().all(|s| s.1 == (bits(1.0), bits(1.0))));
}

#[test]
fn a_glyph_of_two_masters_is_blended() {
    let mut renderer = renderer(64, 64);
    let mut device = Device::new();
    let block = renderer.create_block();
    renderer.begin_frame();
    let mut shape = outline('w', 3);
    shape.b = Some(shape.a.clone());
    shape.weight_t = bits(0.5);
    assert!(renderer.stage(block));
    let GlyphRoute::Vector(glyph) = renderer.route_glyph(key('w'), Some(&shape)) else {
        panic!("the glyph has curves");
    };
    assert!(!renderer.needs_outline(key('w')));
    assert!(renderer.needs_outline(key('v')));
    renderer.push_vector(&glyph, &geometry(0.0, 0.0));
    renderer.commit(block);
    let shown = frame(&mut renderer, &mut device);
    assert_eq!(shown[0].0, BLEND);
    assert_eq!(glyph.b_first(), glyph.first + 6);
}

#[test]
fn immediate_mode_starts_over_with_every_frame() {
    let mut renderer = renderer(64, 64);
    let mut device = Device::new();
    renderer.begin();
    renderer.rect((1, 2), (3, 4), WHITE, RectLayer::Over);
    renderer.decoration([5; 4], DecorationKind::Squiggle, WHITE);
    let first = frame(&mut renderer, &mut device);
    assert_eq!(first.len(), 2);
    assert_eq!(&first[1].2[..4], [1, 2, 3, 4]);
    assert_eq!(device.globals, Some((bits(256.0), bits(256.0))));

    renderer.begin();
    assert!(frame(&mut renderer, &mut device).is_empty());
}

#[test]
fn a_dropped_block_is_gone_for_good() {
    let mut renderer = renderer(64, 64);
    let mut device = Device::new();
    let block = renderer.create_block();
    renderer.begin_frame();
    set_rect_block(&mut renderer, block, &[[1.0; 4]]);
    assert_eq!(frame(&mut renderer, &mut device).len(), 1);
    renderer.drop_block(block);
    assert!(renderer.damaged());
    assert!(frame(&mut renderer, &mut device).is_empty());
    assert!(!renderer.stage(block));
    assert!(!renderer.block_stale(block));
    renderer.drop_block(block);
    renderer.set_block_visible(block, true);
    renderer.set_block_offset(block, (1, 1));
    assert!(!renderer.damaged());
    let other = renderer.create_block();
    assert_ne!(other, block);
}

#[test]
fn a_block_built_while_the_atlas_was_full_is_stale() {
    let mut renderer = renderer(64, 64);
    let mut device = Device::new();
    let block = renderer.create_block();
    renderer.begin_frame();
    assert!(renderer.stage(block));
    let blank = GlyphImage { data: vec![], ..image(0) };
    assert!(renderer.atlas_glyph(atlas_key(1), Some(&blank)).0.is_none());
    assert!(renderer.atlas_glyph(atlas_key(2), None).0.is_none());
    renderer.commit(block);
    assert!(!renderer.block_stale(block), "there is nothing to draw for these");

    assert!(renderer.stage(block));
    let mut skipped = 0;
    for glyph_id in 3..30 {
        if renderer.atlas_glyph(atlas_key(glyph_id), Some(&image(20))).0.is_none() {
            skipped += 1;
        }
    }
    assert!(skipped > 0 && renderer.atlas().needs_reset());
    renderer.commit(block);
    assert!(renderer.block_stale(block), "a glyph was skipped");
    frame(&mut renderer, &mut device);
    assert!(renderer.block_stale(block), "until its content is set again");

    renderer.begin_frame();
    assert!(renderer.stage(block));
    assert!(renderer.atlas_glyph(atlas_key(29), Some(&image(20))).0.is_some());
    renderer.commit(block);
    assert!(!renderer.block_stale(block));
}

#[test]
fn a_glyph_known_to_be_blank_leaves_its_block_fresh_in_a_full_atlas() {
    let mut renderer = renderer(64, 64);
    let block = renderer.create_block();
    renderer.begin_frame();
    for glyph_id in 3..30 {
        renderer.atlas_glyph(atlas_key(glyph_id), Some(&image(20)));
    }
    assert!(renderer.atlas().needs_reset());
    assert!(renderer.stage(block));
    assert!(renderer.atlas_glyph(atlas_key(1), None).0.is_none());
    assert!(renderer.atlas_glyph(atlas_key(1), None).0.is_none());
    renderer.commit(block);
    assert!(!renderer.block_stale(block));
}

#[test]
fn a_glyph_takes_the_weight_and_the_color_asked_for_or_its_own() {
    let mut renderer = renderer(64, 64);
    renderer.begin_frame();
    let mut shape = outline('w', 3);
    shape.b = Some(shape.a.clone());
    shape.weight_t = bits(0.25);
    let GlyphRoute::Vector(glyph) = renderer.route_glyph(key('w'), Some(&shape)) else {
        panic!("the glyph has curves");
    };
    assert_eq!(pick_weight(None, &glyph), bits(0.25));
    assert_eq!(pick_weight(Some(bits(1.0)), &glyph), bits(1.0));
    assert_eq!(pick_weight(Some(0), &glyph), 0);

    let red = Color([bits(1.0), 0, 0, bits(1.0)]);
    assert_eq!(pick_color(None, Color::white()).0, WHITE);
    assert_eq!(pick_color(Some(red), Color::white()).0, red.0);
}

#[test]
fn a_frame_can_begin_and_finish() {
    let mut renderer = renderer(64, 64);
    assert!(renderer.may_begin() && renderer.may_finish());
    renderer.begin();
    renderer.rect((1, 2), (3, 4), WHITE, RectLayer::Under);
    assert!(renderer.may_finish());
}
