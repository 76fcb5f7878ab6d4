use faf_text::view::{
    cluster_after, is_blank, ordered, run_span, Affinity, Caret, Cursor, GlyphSpan, RowHit, TextView, VisualRow,
};
use unicode_segmentation::UnicodeSegmentation;

/// A ZWJ emoji cluster: one grapheme, 18 bytes, one shaped glyph.
const FAMILY: &str = "👩‍👩‍👧";

/// A view laid out with a glyph per cluster and at most `per_row` of them in a row.
fn laid_out(text: &str, per_row: usize) -> TextView {
    let lines: Vec<String> = text.split('\n').map(String::from).collect();
    let mut rows = Vec::new();
    for (line, text) in lines.iter().enumerate() {
        let glyphs: Vec<GlyphSpan> = text
            .grapheme_indices(true)
            .map(|(at, cluster)| GlyphSpan { start: at, end: at + cluster.len() })
            .collect();
        if glyphs.is_empty() {
            rows.push(VisualRow { line, glyphs });
        } else {
            for part in glyphs.chunks(per_row) {
                rows.push(VisualRow { line, glyphs: part.to_vec() });
            }
        }
    }
    TextView::new(lines, rows)
}

fn view(text: &str) -> TextView {
    laid_out(text, usize::MAX)
}

fn at(c: Cursor) -> (usize, usize) {
    (c.line, c.index)
}

/// Where the caret of an index is on a row, with every glyph one wide.
fn caret_x(v: &TextView, row: usize, index: usize) -> Option<f32> {
    let caret = v.caret(row, index)?;
    Some(caret.glyph as f32 + caret.before as f32 / caret.total as f32)
}

#[test]
fn cursor_rect_tracks_the_caret_along_a_line() {
    let v = view("hello world");
    assert_eq!(v.caret(0, 0), Some(Caret { glyph: 0, before: 0, total: 1 }), "caret at the origin");
    assert_eq!(v.caret(0, 5), Some(Caret { glyph: 4, before: 1, total: 1 }), "behind the fifth glyph");
    assert_eq!(caret_x(&v, 0, 0), Some(0.0));
    assert_eq!(caret_x(&v, 0, 5), Some(5.0));
    assert_eq!(caret_x(&v, 0, 11), Some(11.0), "x grows with index");
    assert_eq!(v.caret(0, 12), None, "past every glyph");
}

#[test]
fn cursor_rect_follows_hard_line_breaks() {
    let v = view("first\nsecond");
    assert_eq!(v.row_for_cursor(Cursor::new(0, 0)), Some(RowHit { row: 0, start: 0, end: 5 }));
    assert_eq!(v.row_for_cursor(Cursor::new(1, 0)), Some(RowHit { row: 1, start: 0, end: 6 }));
    assert!(v.row_for_cursor(Cursor::new(7, 0)).is_none(), "no such line");
}

#[test]
fn cursor_rect_is_affinity_aware_at_a_wrap_boundary() {
    // Byte 6 ends row 0 and starts row 1.
    let v = laid_out("aaaaaaaaaaaaaaaaaaaa", 6);
    let before = v.row_for_cursor(Cursor::new_with_affinity(0, 6, Affinity::Before)).unwrap();
    let after = v.row_for_cursor(Cursor::new_with_affinity(0, 6, Affinity::After)).unwrap();
    assert_eq!(before, RowHit { row: 0, start: 0, end: 6 }, "Before keeps the caret on the first row");
    assert_eq!(after, RowHit { row: 1, start: 6, end: 12 }, "After moves it to the next row");
}

#[test]
fn cursor_rect_positions_multi_byte_and_emoji_clusters() {
    let v = view(&format!("é{FAMILY}家"));
    assert_eq!(caret_x(&v, 0, 0), Some(0.0));
    assert_eq!(caret_x(&v, 0, 2), Some(1.0));
    assert_eq!(caret_x(&v, 0, 20), Some(2.0));
    assert_eq!(caret_x(&v, 0, 23), Some(3.0));

    // A ligature of three clusters divides in three.
    let ligature = TextView::new(vec!["ffi".to_string()], vec![VisualRow {
        line: 0,
        glyphs: vec![GlyphSpan { start: 0, end: 3 }],
    }]);
    assert_eq!(ligature.caret(0, 0), Some(Caret { glyph: 0, before: 0, total: 3 }));
    assert_eq!(ligature.caret(0, 1), Some(Caret { glyph: 0, before: 1, total: 3 }));
    assert_eq!(ligature.caret(0, 2), Some(Caret { glyph: 0, before: 2, total: 3 }));
}

#[test]
fn move_left_and_right_step_by_grapheme_in_ascii() {
    let v = view("hello");
    let mut c = Cursor::new(0, 0);
    for expected in 1..=5 {
        c = v.move_right(c);
        assert_eq!(at(c), (0, expected));
        assert_eq!(c.affinity, Affinity::Before);
    }
    assert_eq!(at(v.move_right(c)), (0, 5), "clamped at the end");
    for expected in (0..5).rev() {
        c = v.move_left(c);
        assert_eq!(at(c), (0, expected));
        assert_eq!(c.affinity, Affinity::After);
    }
    assert_eq!(at(v.move_left(c)), (0, 0), "clamped at the start");
}

#[test]
fn move_left_and_right_step_over_multi_byte_scalars() {
    let v = view("é家x");
    let mut c = Cursor::new(0, 0);
    c = v.move_right(c);
    assert_eq!(at(c), (0, 2), "é is two bytes");
    c = v.move_right(c);
    assert_eq!(at(c), (0, 5), "家 is three bytes");
    c = v.move_right(c);
    assert_eq!(at(c), (0, 6));
    c = v.move_left(c);
    assert_eq!(at(c), (0, 5));
    c = v.move_left(c);
    assert_eq!(at(c), (0, 2));
    assert_eq!(at(v.move_left(c)), (0, 0));
}

#[test]
fn move_left_and_right_treat_a_zwj_cluster_as_one_step() {
    let text = format!("a{FAMILY}b");
    let v = view(&text);
    assert_eq!(FAMILY.len(), 18, "ZWJ sequence is 18 bytes");
    let c = v.move_right(Cursor::new(0, 1));
    assert_eq!(at(c), (0, 19), "one motion crosses the whole cluster");
    assert_eq!(at(v.move_left(c)), (0, 1), "and back in one motion");
    assert_eq!(at(v.move_right(c)), (0, 20), "then the trailing b");
}

#[test]
fn horizontal_motion_crosses_hard_line_breaks() {
    let v = view("ab\ncd");
    let c = v.move_right(Cursor::new(0, 2));
    assert_eq!(at(c), (1, 0), "past the end of a line is the next line");
    assert_eq!(at(v.move_left(c)), (0, 2), "and back");
    assert_eq!(at(v.move_right(Cursor::new(1, 2))), (1, 2), "end of text");
}

#[test]
fn word_motion_skips_whitespace_and_punctuation() {
    let v = view("hello world  foo");
    let mut c = Cursor::new(0, 0);
    c = v.move_word_right(c);
    assert_eq!(at(c), (0, 5), "end of the first word");
    assert_eq!(c.affinity, Affinity::Before);
    c = v.move_word_right(c);
    assert_eq!(at(c), (0, 11), "double space collapsed on the way out");
    c = v.move_word_right(c);
    assert_eq!(at(c), (0, 16));
    assert_eq!(at(v.move_word_right(c)), (0, 16), "clamped at the end");

    c = v.move_word_left(c);
    assert_eq!(at(c), (0, 13), "start of the last word");
    assert_eq!(c.affinity, Affinity::After);
    c = v.move_word_left(c);
    assert_eq!(at(c), (0, 6));
    c = v.move_word_left(c);
    assert_eq!(at(c), (0, 0));
    assert_eq!(at(v.move_word_left(c)), (0, 0), "clamped at the start");
}

#[test]
fn word_motion_handles_multi_byte_and_emoji() {
    let v = view(&format!("héllo wörld {FAMILY} x"));
    let mut c = Cursor::new(0, 0);
    c = v.move_word_right(c);
    assert_eq!(at(c), (0, 6), "héllo ends after 6 bytes");
    c = v.move_word_right(c);
    assert_eq!(at(c), (0, 13), "wörld ends after 6 more plus the space");
    c = v.move_word_right(c);
    assert_eq!(at(c), (0, 32), "the whole ZWJ cluster in one step");
    assert_eq!(at(v.move_word_left(c)), (0, 14), "back to its start");
}

#[test]
fn word_motion_crosses_lines() {
    let v = view("one two\nthree");
    let c = v.move_word_right(Cursor::new(0, 7));
    assert_eq!(at(c), (1, 0), "off the end of a line lands on the next");
    assert_eq!(at(v.move_word_right(c)), (1, 5));
    assert_eq!(at(v.move_word_left(Cursor::new(1, 0))), (0, 7), "and back");
}

#[test]
fn vertical_motion_walks_wrapped_rows_with_sticky_x() {
    let v = laid_out("aaaaaaaaaaaaaaaaaaaa", 6);
    let start = Cursor::new(0, 8);
    assert_eq!(v.row_for_cursor(start).unwrap().row, 1);
    assert_eq!(v.row_above(start), Some(0));
    assert_eq!(v.row_below(start), Some(2));
    let down = Cursor::new(0, 14);
    assert_eq!(v.row_for_cursor(down).unwrap().row, 2);
    assert_eq!(v.row_below(down), Some(3));
    // The last row is only two glyphs long.
    assert_eq!(v.row_for_cursor(Cursor::new(0, 20)), Some(RowHit { row: 3, start: 18, end: 20 }));
}

#[test]
fn vertical_motion_stops_at_the_first_and_last_row() {
    let v = laid_out("aaaaaaaaaaaaaaaaaaaa", 6);
    assert_eq!(v.row_above(Cursor::new(0, 2)), None, "nothing above the first row");
    assert_eq!(v.row_below(Cursor::new(0, 19)), None, "nothing below the last");
}

#[test]
fn vertical_motion_crosses_hard_line_breaks() {
    let v = view("first line\nsecond line");
    assert_eq!(v.row_above(Cursor::new(1, 6)), Some(0));
    assert_eq!(v.row_below(Cursor::new(0, 6)), Some(1), "and back down");
}

#[test]
fn line_start_and_end_use_visual_rows() {
    let v = laid_out("aaaaaaaaaaaaaaaaaaaa", 6);
    let mid = Cursor::new(0, 8);
    let start = v.line_start(mid);
    let end = v.line_end(mid);
    assert_eq!(at(start), (0, 6), "row start, not line start");
    assert_eq!(start.affinity, Affinity::After, "stays on this row");
    assert_eq!(at(end), (0, 12), "row end, not line end");
    assert_eq!(end.affinity, Affinity::Before, "stays on this row");
    assert_eq!(v.row_for_cursor(start).unwrap().row, 1);
    assert_eq!(v.row_for_cursor(end).unwrap().row, 1, "both carets on the same row");
}

#[test]
fn line_start_and_end_on_unwrapped_and_empty_lines() {
    let v = view("hello\n\nworld");
    assert_eq!(at(v.line_start(Cursor::new(0, 3))), (0, 0));
    assert_eq!(at(v.line_end(Cursor::new(0, 3))), (0, 5));
    assert_eq!(at(v.line_start(Cursor::new(1, 0))), (1, 0));
    assert_eq!(at(v.line_end(Cursor::new(1, 0))), (1, 0), "empty line");
    assert_eq!(v.row_for_cursor(Cursor::new(1, 0)), Some(RowHit { row: 1, start: 0, end: 0 }));
}

#[test]
fn find_all_locates_matches() {
    let v = view("the cat and the dog\nthe end");
    let matches = v.find_all("the");
    assert_eq!(matches.len(), 3);
    assert_eq!(matches[2].0.line, 1);
    assert_eq!(matches[1], (Cursor::new(0, 12), Cursor::new(0, 15)));
    assert!(v.find_all("").is_empty());
    assert!(v.find_all("zebra").is_empty());
}

#[test]
fn matches_do_not_overlap_and_do_not_cross_lines() {
    let v = view("aaaa\na");
    let found: Vec<_> = v.find_all("aa").iter().map(|(a, b)| (at(*a), at(*b))).collect();
    assert_eq!(found, vec![((0, 0), (0, 2)), ((0, 2), (0, 4))]);
    assert!(v.find_all("a\na").is_empty());
}

#[test]
fn cursors_order_by_line_byte_and_affinity() {
    let a = Cursor::new(0, 9);
    let b = Cursor::new(1, 0);
    assert_eq!(ordered(b, a), (a, b));
    let after = Cursor::new_with_affinity(0, 9, Affinity::After);
    assert_eq!(ordered(after, a), (a, after));
    assert!(a < after && after < b);
}

#[test]
fn a_row_spans_its_glyphs_in_any_order() {
    assert_eq!(run_span(&vec![]), None);
    let glyphs = vec![
        GlyphSpan { start: 6, end: 9 },
        GlyphSpan { start: 2, end: 6 },
        GlyphSpan { start: 9, end: 12 },
    ];
    assert_eq!(run_span(&glyphs), Some(GlyphSpan { start: 2, end: 12 }));
}

#[test]
fn white_space_is_what_unicode_has_it_to_be() {
    assert!(is_blank(""));
    assert!(is_blank(" \t\u{A0}\u{2003}\u{3000}"));
    assert!(!is_blank(" a "));
    assert!(!is_blank("\u{200B}"), "a zero-width space is none");
    for c in (0..0x11_0000u32).filter_map(char::from_u32) {
        let text = c.to_string();
        assert_eq!(is_blank(&text), text.trim().is_empty(), "{c:?}");
    }
}

#[test]
fn a_cluster_ends_where_its_bytes_do() {
    let clusters = vec!["\u{e9}".to_string(), "x".to_string()];
    assert_eq!(cluster_after(&clusters, 3, 9), 5, "two bytes behind the start");
    assert_eq!(cluster_after(&Vec::new(), 3, 9), 9, "nothing left on the line");
}

#[test]
fn a_selection_reaches_the_rows_of_its_lines_only() {
    let v = laid_out("abcd\nef\ngh", 2);
    let (a, b) = (Cursor::new(0, 3), Cursor::new(1, 1));
    let rows: Vec<bool> = (0..4).map(|row| v.in_selection(row, a, b)).collect();
    assert_eq!(rows, [true, true, true, false], "both rows of the first line, one of the second");
    let turned: Vec<bool> = (0..4).map(|row| v.in_selection(row, b, a)).collect();
    assert_eq!(turned, rows);
}

/// The rows that a selection reaches.
fn selected_rows(v: &TextView, rows: usize, a: Cursor, b: Cursor) -> Vec<usize> {
    (0..rows).filter(|row| v.in_selection(*row, a, b)).collect()
}

#[test]
fn selection_skips_lines_outside_cursor_range() {
    let v = view("first line\nsecond line\nthird line");
    // Selecting within line 0 must reach no row of lines 1 and 2.
    assert_eq!(selected_rows(&v, 3, Cursor::new(0, 0), Cursor::new(0, 5)), [0]);
}

#[test]
fn multi_line_selection_spans_lines() {
    let v = view("first line\nsecond line\nthird line");
    assert_eq!(selected_rows(&v, 3, Cursor::new(0, 6), Cursor::new(2, 5)), [0, 1, 2]);
}

#[test]
fn decorations_span_lines_the_way_selections_do() {
    let v = view("first line\nsecond line\nthird line");
    let (a, b) = (Cursor::new(0, 6), Cursor::new(2, 5));
    assert_eq!(selected_rows(&v, 3, a, b), [0, 1, 2], "one per row, top to bottom");
    // A range inside line 0 decorates line 0 alone.
    assert_eq!(selected_rows(&v, 3, Cursor::new(0, 0), Cursor::new(0, 5)).len(), 1);
}
