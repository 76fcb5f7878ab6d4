use faf_text::boxes::PixelRect;
use faf_text::color::Color;
use faf_text::font::{GridFont, GridGlyph};
use faf_text::readout::{backend_tag, FrameMeter, Rate, GAP, MIN_SAMPLES, UPDATE, WINDOW};
use faf_text::scene::GlyphCell;
use faf_text::selection::Selection;
use faf_text::view::Cursor;

#[test]
fn backends_have_short_names() {
    assert_eq!(backend_tag("BrowserWebGpu"), "webgpu");
    assert_eq!(backend_tag("Gl"), "webgl2");
    assert_eq!(backend_tag("Vulkan"), "vulkan");
    assert_eq!(backend_tag("ÄÖ Metal"), "äö metal");
}

#[test]
fn frames_are_measured_over_their_intervals() {
    let mut meter = FrameMeter::new();
    for i in 0..7 {
        meter.record(true, 16_000 * i);
    }
    assert_eq!(meter.rate(96_000), Rate::Measured { intervals: 6, span: 96_000 });
}

#[test]
fn a_readout_does_not_count_its_own_frames_and_an_idle_scene_settles() {
    let mut meter = FrameMeter::new();
    for i in 0..10 {
        meter.record(true, 16_000 * i);
    }
    let last = 16_000 * 9;
    for i in 1..20 {
        meter.record(false, last + UPDATE * i);
    }
    assert_eq!(meter.samples().len(), 10);
    assert_eq!(meter.rate(last + GAP), Rate::Measured { intervals: 9, span: last });
    assert_eq!(meter.rate(last + GAP + 1), Rate::Idle);
    assert_eq!(meter.samples().len(), 0);
}

#[test]
fn old_frames_leave_the_window_but_slow_ones_are_still_measured() {
    let mut meter = FrameMeter::new();
    for i in 0..100 {
        meter.record(true, 100_000 * i);
    }
    assert_eq!(meter.samples().len(), 16);
    assert_eq!(meter.samples().front(), Some(&(9_900_000 - WINDOW)));

    let mut slow = FrameMeter::new();
    for i in 0..9 {
        slow.record(true, 500_000 * i);
    }
    assert_eq!(slow.samples().len(), MIN_SAMPLES);
    assert_eq!(slow.rate(4_000_000), Rate::Measured { intervals: 4, span: 2_000_000 });

    // A pause starts over.
    slow.record(true, 4_000_000 + GAP + 1);
    assert_eq!(slow.samples().len(), 1);
    assert_eq!(slow.rate(4_000_000 + GAP + 2), Rate::Idle);
    slow.reset();
    assert_eq!(slow.samples().len(), 0);
}

#[test]
fn no_time_between_frames_is_no_rate() {
    let mut meter = FrameMeter::new();
    for _ in 0..8 {
        meter.record(true, 5);
    }
    assert_eq!(meter.rate(5), Rate::Idle);
}

#[test]
fn the_text_is_considered_four_times_a_second_and_drawn_when_it_changes() {
    let mut meter = FrameMeter::new();
    assert_eq!(meter.poll(UPDATE - 1), None);
    assert_eq!(meter.poll(UPDATE), Some(Rate::Idle));
    assert_eq!(meter.poll(UPDATE + 1), None);
    assert_eq!(meter.poll(2 * UPDATE), Some(Rate::Idle));
    assert_eq!(meter.label(), "");
    assert!(meter.relabel("webgpu · idle".to_string()));
    assert!(!meter.relabel("webgpu · idle".to_string()));
    assert_eq!(meter.label(), "webgpu · idle");
}

fn lines(text: &str) -> Vec<String> {
    text.split('\n').map(String::from).collect()
}

#[test]
fn dragging_selects_and_letting_go_keeps_the_selection() {
    let text = lines("hello world\nπρώτα\nlast");
    let mut selection = Selection::new();
    assert_eq!(selection.selected_text(&text), "");
    selection.pointer_move(Some(Cursor::new(0, 3)));
    assert!(selection.range.is_none(), "a move without a press selects nothing");
    selection.pointer_down(None);
    assert!(!selection.dragging, "a press off the text selects nothing");

    selection.pointer_down(Some(Cursor::new(0, 6)));
    assert_eq!(selection.selected_text(&text), "", "a click selects nothing");
    selection.pointer_move(Some(Cursor::new(2, 2)));
    assert_eq!(selection.selected_text(&text), "world\nπρώτα\nla");
    selection.pointer_move(None);
    assert_eq!(selection.selected_text(&text), "world\nπρώτα\nla");
    selection.pointer_move(Some(Cursor::new(0, 0)));
    assert_eq!(selection.selected_text(&text), "hello ", "backwards works as well");
    selection.pointer_up();
    selection.pointer_move(Some(Cursor::new(2, 2)));
    assert_eq!(selection.selected_text(&text), "hello ");
    selection.clear();
    assert_eq!(selection.selected_text(&text), "");
}

#[test]
fn a_cursor_past_the_end_of_its_line_stands_at_the_end() {
    let text = lines("ab\ncd");
    let mut selection = Selection::new();
    selection.pointer_down(Some(Cursor::new(0, 9)));
    selection.pointer_move(Some(Cursor::new(1, 99)));
    assert_eq!(selection.selected_text(&text), "\ncd");
    selection.pointer_down(Some(Cursor::new(0, 0)));
    selection.pointer_move(Some(Cursor::new(1, 2)));
    assert_eq!(selection.selected_text(&text), "ab\ncd");
}

fn cell(face: usize, text: &str, direct: Option<char>) -> GlyphCell {
    GlyphCell {
        place: PixelRect { x: 0, y: 0, w: 8, h: 16 },
        face,
        text: text.to_string(),
        direct,
        color: Color([0; 4]),
    }
}

#[test]
fn a_charmap_miss_takes_the_fallback_lane() {
    let mut font = GridFont::new();
    let wide = cell(0, "日", Some('日'));
    assert_eq!(font.unknown(&wide), Some('日'));
    assert!(font.glyph(&wide).is_none());
    // Glyph 0 is a miss, which is remembered.
    font.learn(0, '日', 0, 7);
    assert_eq!(font.unknown(&wide), None);
    assert!(font.glyph(&wide).is_none());
}

#[test]
fn glyphs_come_from_the_charmap_once_for_each_face() {
    let mut font = GridFont::new();
    let plain = cell(0, "a", Some('a'));
    let bold = cell(1, "a", Some('a'));
    font.learn(0, 'a', 36, 9);
    assert_eq!(font.glyph(&plain), Some(GridGlyph { id: 36, advance: 9 }));
    assert_eq!(font.unknown(&bold), Some('a'));
    font.learn(1, 'a', 40, 10);
    assert_eq!(font.glyph(&bold), Some(GridGlyph { id: 40, advance: 10 }));
    assert_eq!(font.glyph(&plain), Some(GridGlyph { id: 36, advance: 9 }));
    // A cluster is shaped.
    assert_eq!(font.unknown(&cell(0, "é", None)), None);
    assert!(font.glyph(&cell(0, "é", None)).is_none());
}
