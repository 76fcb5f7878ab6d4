use faf_text::boxes::{push_procedural, PixelRect, SceneRect};
use faf_text::cells::{Cell, CellStyle};
use faf_text::color::Color;
use faf_text::grid::TermGrid;
use faf_text::scene::{DecorationKind, GridLayout, GridScene};
use faf_text::width::{char_width, cluster_width, WIDE_RANGES};

fn rgba(r: f32, g: f32, b: f32, a: f32) -> Color {
    Color([r.to_bits(), g.to_bits(), b.to_bits(), a.to_bits()])
}

fn fg() -> Color {
    Color::white()
}

fn bg() -> Color {
    rgba(0.1, 0.1, 0.2, 1.0)
}

fn black() -> Color {
    rgba(0.0, 0.0, 0.0, 1.0)
}

fn layout() -> GridLayout {
    GridLayout { cell_w: 8, cell_h: 16, left: 0, top: 0 }
}

fn build(grid: &TermGrid) -> GridScene {
    let mut scene = GridScene::new();
    grid.build(layout(), &mut scene);
    scene
}

// ---- The model ----

#[test]
fn wide_chars_occupy_two_cells() {
    let mut grid = TermGrid::new(8, 1, 0);
    assert_eq!(grid.print(0, 0, "日本a", fg(), None), 5);
    assert_eq!(grid.cell(0, 0).unwrap().ch, '日');
    assert!(grid.cell(1, 0).unwrap().is_continuation());
    assert_eq!(grid.cell(2, 0).unwrap().ch, '本');
    assert!(grid.cell(3, 0).unwrap().is_continuation());
    assert_eq!(grid.cell(4, 0).unwrap().ch, 'a');
    // A continuation carries its cell's colors so background runs merge.
    let mut grid = TermGrid::new(4, 1, 0);
    grid.print(0, 0, "日", fg(), Some(bg()));
    assert_eq!(grid.cell(1, 0).unwrap().bg, Some(bg()));
}

#[test]
fn a_wide_char_that_does_not_fit_leaves_the_cell_blank() {
    let mut grid = TermGrid::new(2, 1, 0);
    assert_eq!(grid.print(0, 0, "a日b", fg(), None), 2);
    assert_eq!(grid.cell(0, 0).unwrap().ch, 'a');
    // The straddling cell is blanked, and printing stops there: 'b' does not slide into
    // the hole.
    assert_eq!(grid.cell(1, 0).unwrap().ch, ' ');
}

#[test]
fn print_clips_at_the_row_end_and_never_wraps() {
    let mut grid = TermGrid::new(5, 2, 0);
    assert_eq!(grid.print(2, 0, "abcdefgh", fg(), None), 5);
    assert_eq!(grid.cell(4, 0).unwrap().ch, 'c');
    // Nothing wrapped onto the next row.
    assert_eq!(grid.cell(0, 1).unwrap().ch, ' ');
    // Printing past the last column writes nothing at all.
    assert_eq!(grid.print(9, 1, "x", fg(), None), 9);
    assert!(grid.cell(9, 1).is_none());
}

#[test]
fn clusters_ride_along_with_their_base_cell() {
    let mut grid = TermGrid::new(4, 1, 0);
    grid.print(0, 0, "e\u{301}x", fg(), None); // e + combining acute
    assert_eq!(grid.cell(0, 0).unwrap().ch, 'e');
    assert_eq!(grid.cluster(0, 0), Some("e\u{301}"));
    assert_eq!(grid.cell(1, 0).unwrap().ch, 'x');
    assert_eq!(grid.cluster(1, 0), None);
    // Overwriting the cell drops the cluster with it.
    grid.set_cell(0, 0, Cell::new('z', fg()));
    assert_eq!(grid.cluster(0, 0), None);
}

#[test]
fn scroll_up_fills_the_scrollback_ring() {
    let mut grid = TermGrid::new(4, 2, 3);
    for i in 0..6 {
        grid.push_line(&format!("l{i}"), fg(), None);
    }
    // Six lines pushed, two on screen, three in a ring that holds three.
    assert_eq!(grid.scrollback_len(), 3);
    assert_eq!(grid.cell(1, 1).unwrap().ch, '5');
    assert_eq!(grid.cell(1, 0).unwrap().ch, '4');
    grid.set_view_offset(3);
    assert_eq!(grid.view_cell(1, 0).unwrap().ch, '1');
    assert_eq!(grid.view_cell(1, 1).unwrap().ch, '2');
    // Past the ring the offset clamps rather than reading garbage.
    assert_eq!(grid.set_view_offset(99), 3);
}

#[test]
fn the_viewport_follows_its_text_out_of_the_ring() {
    let mut grid = TermGrid::new(4, 2, 3);
    for i in 0..5 {
        grid.push_line(&format!("l{i}"), fg(), None);
    }
    grid.set_view_offset(3);
    assert_eq!(grid.view_cell(1, 0).unwrap().ch, '0');
    // One more line: the ring drops "l0", so the same view offset would now show a
    // different line. The offset moves with the text instead, and the top of the
    // viewport stays on "l1".
    grid.push_line("l5", fg(), None);
    assert_eq!(grid.scrollback_len(), 3);
    assert_eq!(grid.view_offset(), 3);
    assert_eq!(grid.view_cell(1, 0).unwrap().ch, '1');
    // Rows past the scrollback come from the screen, unshifted.
    grid.set_view_offset(1);
    assert_eq!(grid.view_cell(1, 0).unwrap().ch, '3');
    assert_eq!(grid.view_cell(1, 1).unwrap().ch, '4');
}

#[test]
fn a_zero_limit_ring_keeps_nothing() {
    let mut grid = TermGrid::new(4, 2, 0);
    for i in 0..4 {
        grid.push_line(&format!("l{i}"), fg(), None);
    }
    assert_eq!(grid.scrollback_len(), 0);
    assert_eq!(grid.set_view_offset(2), 0);
    assert_eq!(grid.view_cell(1, 0).unwrap().ch, '2');
}

#[test]
fn resize_keeps_the_bottom_and_banks_the_top() {
    let mut grid = TermGrid::new(6, 3, 10);
    for row in 0..3 {
        grid.print(0, row, &format!("row{row}"), fg(), None);
    }
    grid.resize(3, 2);
    assert_eq!(grid.cols(), 3);
    assert_eq!(grid.rows(), 2);
    assert_eq!(grid.scrollback_len(), 1);
    // Columns truncate, the top row goes to scrollback.
    assert_eq!(grid.cell(2, 0).unwrap().ch, 'w');
    assert!(grid.cell(3, 0).is_none());
    grid.set_view_offset(1);
    assert_eq!(grid.view_cell(0, 0).unwrap().ch, 'r');
}

#[test]
fn dirty_tracks_content_changes() {
    let mut grid = TermGrid::new(4, 2, 4);
    assert!(grid.take_dirty());
    assert!(!grid.take_dirty());
    grid.set_cell(0, 0, Cell::new('x', fg()));
    assert!(grid.take_dirty());
    grid.scroll_up(1);
    assert!(grid.take_dirty());
    grid.set_view_offset(1);
    assert!(grid.take_dirty());
    assert!(!grid.dirty());
}

#[test]
fn a_scrolled_back_viewport_stays_on_its_text_while_the_ring_is_full() {
    let mut grid = TermGrid::new(4, 2, 3);
    for i in 0..5 {
        grid.push_line(&format!("l{i}"), fg(), None);
    }
    // The ring is full; the viewport shows "l2" and "l3".
    grid.set_view_offset(1);
    assert_eq!(grid.view_cell(1, 0).unwrap().ch, '2');
    grid.push_line("l5", fg(), None);
    assert_eq!(grid.view_offset(), 2);
    assert_eq!(grid.view_cell(1, 0).unwrap().ch, '2');
    assert_eq!(grid.view_cell(1, 1).unwrap().ch, '3');
}

#[test]
fn resize_grows_with_blank_rows_and_columns_and_drops_cut_clusters() {
    let mut grid = TermGrid::new(4, 1, 2);
    grid.print(0, 0, "abe\u{301}", fg(), None);
    assert_eq!(grid.cluster(2, 0), Some("e\u{301}"));
    grid.resize(2, 1);
    grid.resize(4, 2);
    assert_eq!(grid.cluster(2, 1), None);
    assert_eq!(grid.cell(1, 1).unwrap().ch, 'b');
    assert_eq!(grid.cell(2, 1).unwrap(), Cell::default());
    assert_eq!(grid.cell(0, 0).unwrap(), Cell::default());
    grid.clear();
    assert_eq!(grid.cell(0, 1).unwrap(), Cell::default());
    assert_eq!(grid.scrollback_len(), 0);
}

#[test]
fn growing_leaves_the_text_at_the_bottom() {
    let mut grid = TermGrid::new(2, 1, 0);
    grid.set_cell(0, 0, Cell::new('a', fg()));
    grid.resize(2, 2);
    assert_eq!(grid.cell(0, 1).unwrap().ch, 'a');
    assert_eq!(grid.cell(0, 0).unwrap().ch, ' ');
    grid.resize(2, 5);
    assert_eq!(grid.cell(0, 4).unwrap().ch, 'a');
    assert_eq!(grid.cell(0, 1).unwrap().ch, ' ');
    assert_eq!(grid.scrollback_len(), 0);
    grid.resize(2, 1);
    assert_eq!(grid.cell(0, 0).unwrap().ch, 'a');
}

#[test]
fn control_characters_are_skipped() {
    let mut grid = TermGrid::new(4, 1, 0);
    assert_eq!(grid.print(0, 0, "a\u{7}\tb", fg(), None), 2);
    assert_eq!(grid.cell(1, 0).unwrap().ch, 'b');
    assert_eq!(grid.print(0, 7, "x", fg(), None), 0, "there is no such row");
}

#[test]
fn styles_combine_and_pick_a_face() {
    let bold = CellStyle(CellStyle::BOLD);
    let italic = CellStyle(CellStyle::ITALIC);
    let both = bold | italic;
    assert!(both.contains(bold) && both.contains(italic));
    assert!(!bold.contains(both));
    assert_eq!(both.without(bold), italic);
    assert_eq!(bold.with(italic), both);
    assert_eq!(CellStyle(CellStyle::NONE).face(), 0);
    assert_eq!(bold.face(), 1);
    assert_eq!(italic.face(), 2);
    assert_eq!(both.with(CellStyle(CellStyle::STRIKE)).face(), 3);
}

// ---- East Asian Width ----

#[test]
fn eaw_ranges_are_sorted_and_disjoint() {
    for pair in WIDE_RANGES.windows(2) {
        assert!(pair[0].0 <= pair[0].1);
        // Merged: neighbours never touch, or the table would be redundant.
        assert!(
            pair[0].1 + 1 < pair[1].0,
            "{:x?} then {:x?}",
            pair[0],
            pair[1]
        );
    }
}

#[test]
fn eaw_widths_match_known_characters() {
    for ch in ['a', ' ', 'é', '→', '│', '█', '\u{2026}', 'Ω', 'ب'] {
        assert_eq!(char_width(ch), 1, "{ch:?} should be narrow");
    }
    // U+FF71 ｱ is halfwidth katakana, class H: narrow, unlike its
    // fullwidth twin U+30A2.
    assert_eq!(char_width('ｱ'), 1);
    assert_eq!(char_width('ア'), 2);
    for ch in ['日', '本', '한', '\u{FF21}', '⌚', '🚀', '🧑', '\u{3000}'] {
        assert_eq!(char_width(ch), 2, "{ch:?} should be wide");
    }
    // Range edges, from the table's own boundaries.
    assert_eq!(char_width('\u{10FF}'), 1);
    assert_eq!(char_width('\u{1100}'), 2);
    assert_eq!(char_width('\u{115F}'), 2);
    assert_eq!(char_width('\u{1160}'), 1);
    assert_eq!(char_width('\u{FF60}'), 2);
    assert_eq!(char_width('\u{FF61}'), 1);
    // An emoji presentation selector widens its cluster.
    assert_eq!(cluster_width("⚠\u{FE0F}"), 2);
    assert_eq!(cluster_width("⚠"), 1);
    assert_eq!(cluster_width(""), 0);
}

// ---- Translation ----

#[test]
fn backgrounds_merge_into_runs() {
    let mut grid = TermGrid::new(10, 1, 0);
    grid.print(0, 0, "aaaa", fg(), Some(bg()));
    grid.print(4, 0, "bb", fg(), Some(black()));
    grid.print(6, 0, "cc", fg(), Some(bg()));
    let scene = build(&grid);
    let cell_w = 8;
    assert_eq!(scene.rects.len(), 3);
    assert_eq!(scene.rects[0].rect.w, 4 * cell_w);
    assert_eq!(scene.rects[1].rect.w, 2 * cell_w);
    assert_eq!(scene.rects[2].rect.x, 6 * cell_w);
    // Cells with no background contribute nothing at all.
    let mut plain = TermGrid::new(10, 1, 0);
    plain.print(0, 0, "abc", fg(), None);
    assert!(build(&plain).rects.is_empty());
}

#[test]
fn continuations_and_procedural_cells_never_reach_the_font() {
    let mut grid = TermGrid::new(4, 1, 0);
    grid.print(0, 0, "█▒╬", fg(), None);
    let scene = build(&grid);
    assert!(scene.glyphs.is_empty(), "block drawing must not shape");
    // Full block, shade, and the four corner pieces per axis of ╬.
    assert_eq!(scene.rects.len(), 10);
    assert_eq!(scene.rects[1].quarters, 2, "medium shade is half alpha");
}

#[test]
fn decorations_merge_across_cells() {
    let underline = CellStyle(CellStyle::UNDERLINE);
    let mut grid = TermGrid::new(8, 1, 0);
    grid.print_styled(0, 0, "abc", fg(), None, underline);
    grid.print_styled(
        3,
        0,
        "de",
        fg(),
        None,
        underline | CellStyle(CellStyle::STRIKE),
    );
    let scene = build(&grid);
    let cell_w = 8;
    let underlines: Vec<_> = scene
        .decorations
        .iter()
        .filter(|run| run.kind == DecorationKind::Underline)
        .collect();
    assert_eq!(underlines.len(), 1, "one run across all five cells");
    assert_eq!(underlines[0].place.w, 5 * cell_w);
    assert_eq!(scene.decorations.len(), 2);
}

#[test]
fn cells_ask_the_charmap_or_the_shaper() {
    let mut grid = TermGrid::new(8, 2, 0);
    let bold = CellStyle(CellStyle::BOLD);
    grid.print_styled(0, 1, "M e\u{301}日☀", fg(), None, bold);
    let mut scene = GridScene::new();
    grid.build(
        GridLayout { cell_w: 8, cell_h: 16, left: 10, top: 20 },
        &mut scene,
    );
    // The space draws nothing.
    assert_eq!(scene.glyphs.len(), 4);
    let asked: Vec<_> = scene
        .glyphs
        .iter()
        .map(|g| (g.text.as_str(), g.direct, g.face, g.place.x, g.place.w))
        .collect();
    assert_eq!(
        asked,
        vec![
            ("M", Some('M'), 1, 10, 8),
            ("e\u{301}", None, 1, 26, 8),
            ("日", Some('日'), 1, 34, 16),
            ("☀", None, 1, 50, 8),
        ]
    );
    assert!(scene.glyphs.iter().all(|g| g.place.y == 36 && g.place.h == 16));
    assert_eq!(scene.instances(), 4);
}

#[test]
fn colors_compare_as_numbers() {
    assert_eq!(rgba(0.0, 1.0, 1.0, 1.0), rgba(-0.0, 1.0, 1.0, 1.0));
    assert_ne!(rgba(f32::NAN, 1.0, 1.0, 1.0), rgba(f32::NAN, 1.0, 1.0, 1.0));
    assert_ne!(rgba(0.5, 1.0, 1.0, 1.0), rgba(-0.5, 1.0, 1.0, 1.0));
    // So two cells of one color that is no number are two runs.
    let mut grid = TermGrid::new(2, 1, 0);
    grid.print(0, 0, "ab", fg(), Some(rgba(f32::NAN, 0.0, 0.0, 1.0)));
    assert_eq!(build(&grid).rects.len(), 2);
}

// ---- Procedural geometry ----

/// Rects for one cell of a row of `ch`, at cell `col` of an 8×16 grid.
fn cell_rects(ch: char, col: i64) -> Vec<SceneRect> {
    let mut out = Vec::new();
    assert!(push_procedural(
        ch,
        PixelRect { x: col * 8, y: 0, w: 8, h: 16 },
        fg(),
        &mut out
    ));
    out
}

#[test]
fn box_rects_land_on_whole_pixels() {
    for ch in ['─', '━', '│', '╬', '╔', '┼', '╤', '▚', '▄', '╌'] {
        for SceneRect { rect, .. } in cell_rects(ch, 3) {
            assert!(rect.w > 0 && rect.h > 0, "{ch:?} rect {rect:?}");
        }
    }
}

/// Merge the x spans of the rects that cover row `y`, in ascending order.
fn coverage_at(rects: &[SceneRect], y: i64) -> Vec<(i64, i64)> {
    let mut spans: Vec<(i64, i64)> = rects
        .iter()
        .map(|s| s.rect)
        .filter(|r| r.y <= y && y < r.y + r.h)
        .map(|r| (r.x, r.x + r.w))
        .collect();
    spans.sort();
    let mut merged: Vec<(i64, i64)> = Vec::new();
    for span in spans {
        match merged.last_mut() {
            Some(last) if span.0 <= last.1 => last.1 = last.1.max(span.1),
            _ => merged.push(span),
        }
    }
    merged
}

#[test]
fn horizontal_runs_join_without_gaps() {
    for ch in ['─', '━', '═', '┼', '╬', '╤', '┯'] {
        let mut run = cell_rects(ch, 0);
        run.extend(cell_rects(ch, 1));
        // Every horizontal stroke crosses the cell boundary at x = 8 as one merged span.
        // A seam there is exactly the artifact font outlines give at most sizes, and the
        // reason these are drawn.
        let left = cell_rects(ch, 0);
        let rows: Vec<i64> = left.iter().map(|s| s.rect.y).collect();
        let mut crossings = 0;
        for y in rows {
            // Only the rows where the left cell's own stroke reaches its right edge:
            // those are the ones with a neighbour to meet.
            if !coverage_at(&left, y).iter().any(|s| s.1 == 8) {
                continue;
            }
            let spans = coverage_at(&run, y);
            assert!(
                spans.iter().any(|s| s.0 < 8 && s.1 > 8),
                "{ch:?} seam at the cell boundary, y {y}: {spans:?}"
            );
            crossings += 1;
        }
        assert!(crossings > 0, "{ch:?} drew no horizontal stroke");
    }
}

#[test]
fn corners_close_and_crosses_reach_every_edge() {
    // ┌ covers the corner: the right arm and the down arm overlap.
    let corner = cell_rects('┌', 0);
    assert_eq!(corner.len(), 2);
    let right = corner.iter().find(|s| s.rect.w > s.rect.h).unwrap().rect;
    let down = corner.iter().find(|s| s.rect.h > s.rect.w).unwrap().rect;
    assert_eq!(right.x + right.w, 8);
    assert_eq!(down.y + down.h, 16);
    assert!(right.x <= down.x && down.x + down.w <= right.x + right.w);
    assert!(down.y <= right.y && right.y + right.h <= down.y + down.h);

    // ┼ reaches all four edges.
    let cross = cell_rects('┼', 0);
    let min_x = cross.iter().map(|s| s.rect.x).min().unwrap();
    let max_x = cross.iter().map(|s| s.rect.x + s.rect.w).max().unwrap();
    let min_y = cross.iter().map(|s| s.rect.y).min().unwrap();
    let max_y = cross.iter().map(|s| s.rect.y + s.rect.h).max().unwrap();
    assert_eq!([min_x, max_x, min_y, max_y], [0, 8, 0, 16]);
}

#[test]
fn double_junctions_break_only_where_a_double_crosses() {
    // ╬: every rail is broken by the perpendicular pair, so it is four corner pieces per
    // axis.
    assert_eq!(cell_rects('╬', 0).len(), 8);
    // ╠: the left rail is continuous (nothing crosses it), the right rail is broken in
    // two, and two horizontal stubs go right.
    assert_eq!(cell_rects('╠', 0).len(), 5);
    // ═ and ║ are two full-length rails.
    assert_eq!(cell_rects('═', 0).len(), 2);
    assert_eq!(cell_rects('║', 0).len(), 2);
    // ╪: a single vertical passes straight through both rails.
    let tee = cell_rects('╪', 0);
    assert_eq!(tee.len(), 3);
    let vertical = tee.iter().find(|s| s.rect.h > s.rect.w).unwrap().rect;
    assert_eq!([vertical.y, vertical.y + vertical.h], [0, 16]);
    // ╤: the single arm starts at the lower rail and runs to the bottom.
    let down = cell_rects('╤', 0);
    let stem = down.iter().find(|s| s.rect.h > s.rect.w).unwrap().rect;
    assert_eq!(stem.y + stem.h, 16);
    assert!(stem.y > 8);
}

fn rect(x: i64, y: i64, w: i64, h: i64) -> PixelRect {
    PixelRect { x, y, w, h }
}

#[test]
fn block_elements_fill_their_fraction_of_the_cell() {
    let full = cell_rects('█', 0);
    assert_eq!(full[0].rect, rect(0, 0, 8, 16));
    // Lower eighths grow downward from the bottom edge.
    let quarter = cell_rects('▄', 0)[0].rect;
    assert_eq!(quarter, rect(0, 8, 8, 8));
    let one_eighth = cell_rects('▁', 0)[0].rect;
    assert_eq!(one_eighth, rect(0, 14, 8, 2));
    // Left eighths grow rightward from the left edge.
    assert_eq!(cell_rects('▌', 0)[0].rect, rect(0, 0, 4, 16));
    assert_eq!(cell_rects('▏', 0)[0].rect, rect(0, 0, 1, 16));
    // Halves meet exactly.
    let upper = cell_rects('▀', 0)[0].rect;
    let lower = cell_rects('▄', 0)[0].rect;
    assert_eq!(upper.y + upper.h, lower.y);
    // Quadrants tile the cell.
    let quads = cell_rects('▟', 0);
    assert_eq!(quads.len(), 3);
    let area: i64 = quads.iter().map(|s| s.rect.w * s.rect.h).sum();
    assert_eq!(area, 3 * 4 * 8);
    // Shades are the whole cell, dimmed.
    for (i, ch) in ['░', '▒', '▓'].into_iter().enumerate() {
        let shade = cell_rects(ch, 0);
        assert_eq!(shade[0].rect, rect(0, 0, 8, 16));
        let alpha = f32::from_bits(shade[0].color.0[3]) * shade[0].quarters as f32 / 4.0;
        assert_eq!(alpha, 0.25 * (i + 1) as f32);
    }
}

#[test]
fn dashes_and_diagonals_stay_inside_the_cell() {
    assert_eq!(cell_rects('┄', 0).len(), 3);
    assert_eq!(cell_rects('┈', 0).len(), 4);
    assert_eq!(cell_rects('╌', 0).len(), 2);
    assert_eq!(cell_rects('┊', 0).len(), 4);
    for ch in ['╱', '╲', '╳'] {
        for SceneRect { rect, .. } in cell_rects(ch, 0) {
            assert!(rect.x >= 0 && rect.x + rect.w <= 8, "{ch:?}");
            assert!(rect.y >= 0 && rect.y + rect.h <= 16, "{ch:?}");
        }
    }
    // The cross is both diagonals.
    assert_eq!(cell_rects('╳', 0).len(), 2 * cell_rects('╱', 0).len());
}

#[test]
fn strokes_have_their_exact_place() {
    let all = |ch| -> Vec<PixelRect> { cell_rects(ch, 0).iter().map(|s| s.rect).collect() };
    assert_eq!(all('╶'), vec![rect(3, 7, 5, 2)]);
    assert_eq!(all('╹'), vec![rect(2, 0, 4, 10)]);
    assert_eq!(all('═'), vec![rect(0, 5, 8, 2), rect(0, 9, 8, 2)]);
    assert_eq!(all('┆'), vec![rect(3, 0, 2, 3), rect(3, 5, 2, 4), rect(3, 11, 2, 3)]);
    assert_eq!(all('╲')[0], rect(0, 0, 2, 1));
    assert_eq!(all('╲')[15], rect(6, 15, 2, 1));
    assert_eq!(all('╱')[0], rect(6, 0, 2, 1));
    assert_eq!(all('▐'), vec![rect(4, 0, 4, 16)]);
    assert_eq!(all('▕'), vec![rect(7, 0, 1, 16)]);
    assert_eq!(all('▔'), vec![rect(0, 0, 8, 2)]);
    assert_eq!(all('▞'), vec![rect(4, 0, 4, 8), rect(0, 8, 4, 8)]);
}

#[test]
fn non_procedural_chars_are_left_to_the_font() {
    let mut out = Vec::new();
    for ch in ['a', '⌘', '\u{24FF}', '⯐'] {
        assert!(!push_procedural(ch, rect(0, 0, 8, 16), fg(), &mut out));
    }
    assert!(out.is_empty());
}

#[test]
fn unlike_collinear_arms_draw_one_bar_at_the_thicker_weight() {
    let rects = |ch: char| -> Vec<[i64; 4]> {
        cell_rects(ch, 0).iter().map(|s| [s.rect.x, s.rect.y, s.rect.w, s.rect.h]).collect()
    };
    // Light left and heavy right, and the other way round.
    assert_eq!(rects('╼'), vec![[0, 6, 8, 4]]);
    assert_eq!(rects('╾'), vec![[0, 6, 8, 4]]);
    // Light up and heavy down, and the other way round.
    assert_eq!(rects('╽'), vec![[2, 0, 4, 16]]);
    assert_eq!(rects('╿'), vec![[2, 0, 4, 16]]);
    // A heavy right arm at a light cross: the horizontal arms are one bar, the vertical
    // ones stay two.
    assert_eq!(rects('┾'), vec![[3, 0, 2, 9], [0, 6, 8, 4], [3, 7, 2, 9]]);
    // Arms that are alike, or alone, run from the center.
    assert_eq!(rects('─'), vec![[3, 7, 5, 2], [0, 7, 5, 2]]);
    assert_eq!(rects('╸'), vec![[0, 6, 6, 4]]);
    // A light line meets the thicker bar on its own rows.
    let mut pair = cell_rects('─', 0);
    pair.extend(cell_rects('╼', 1));
    for y in 7..9 {
        assert_eq!(coverage_at(&pair, y), vec![(0, 16)]);
    }
}
