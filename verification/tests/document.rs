use faf_text::document::{
    order, DocCursor, DocStats, Document, Pass, CHUNK_LINES, MAX_RESIDENT, PASSES, RETAIN_CHUNKS, WINDOW_CHUNKS,
};

const LINE_HEIGHT: f32 = 20.0;
const FONT_SIZE: f32 = 16.0;
const WIDTH: f32 = 400.0;
const VIEWPORT: f32 = 300.0;

/// A document with a layout of its own: every character is `advance` wide.
struct Pane {
    doc: Document,
    advance: f32,
}

impl Pane {
    fn new() -> Pane {
        let mut pane = Pane { doc: Document::new(), advance: 8.0 };
        pane.estimate(0);
        pane
    }

    fn with_text(text: &str) -> Pane {
        let mut pane = Pane::new();
        pane.set_text(text);
        pane
    }

    fn cols(&self) -> f32 {
        let width = f32::from_bits(self.doc.width());
        if width.is_finite() && width > 0.0 {
            (width / (0.55 * FONT_SIZE)).max(1.0)
        } else {
            f32::INFINITY
        }
    }

    /// Estimated heights of the chunks from `first` on, and the edges they make.
    fn estimate(&mut self, first: usize) {
        let cols = self.cols();
        let mut heights: Vec<u32> = Vec::new();
        for chunk in first..self.doc.chunk_count() {
            let (start, end) = self.doc.chunk_lines(chunk);
            let rows: f32 = (start..end)
                .map(|line| {
                    if cols.is_finite() {
                        (self.doc.cols(line) as f32 / cols).ceil().max(1.0)
                    } else {
                        1.0
                    }
                })
                .sum();
            heights.push((rows * LINE_HEIGHT).to_bits());
        }
        let kept: Vec<u32> = (0..first).map(|c| self.doc.chunk_height(c)).collect();
        let tops = edges(kept.iter().chain(&heights));
        self.doc.relayout(first, &heights, tops);
    }

    fn set_text(&mut self, text: &str) {
        self.doc.set_text(text);
        self.estimate(0);
    }

    fn append(&mut self, text: &str) {
        if let Some(dirty) = self.doc.append(text) {
            self.estimate(dirty);
        }
    }

    fn measured(&self, chunk: usize) -> f32 {
        let width = f32::from_bits(self.doc.width());
        let (start, end) = self.doc.chunk_lines(chunk);
        (start..end)
            .map(|line| (self.doc.cols(line) as f32 * self.advance / width).ceil().max(1.0))
            .sum::<f32>()
            * LINE_HEIGHT
    }

    fn set_viewport(&mut self, width: f32, scroll_y: f32, height: f32) {
        if self.doc.begin_viewport(width.to_bits(), scroll_y.to_bits(), height.to_bits()) {
            self.estimate(0);
        }
        let bottom = scroll_y + height.max(0.0);
        for number in 0..PASSES {
            let pass = self.doc.plan(bottom.to_bits());
            let mut corrected = false;
            for chunk in &pass.missing {
                let height = self.measured(*chunk);
                if self.doc.shaped(*chunk, height.to_bits()) {
                    corrected = true;
                    let heights: Vec<u32> =
                        (0..self.doc.chunk_count()).map(|c| self.doc.chunk_height(c)).collect();
                    self.doc.set_tops(edges(heights.iter()));
                }
            }
            if self.doc.finish_pass(&pass, corrected, number).is_some() {
                break;
            }
        }
    }

    fn top(&self, chunk: usize) -> f32 {
        f32::from_bits(self.doc.chunk_top(chunk))
    }

    fn total_height(&self) -> f32 {
        f32::from_bits(self.doc.total_height())
    }
}

fn edges<'a>(heights: impl Iterator<Item = &'a u32>) -> Vec<u32> {
    let mut y = 0.0f32;
    let mut tops = vec![y.to_bits()];
    for h in heights {
        y += f32::from_bits(*h);
        tops.push(y.to_bits());
    }
    tops
}

fn document(text: &str) -> Pane {
    let mut pane = Pane::with_text(text);
    pane.set_viewport(WIDTH, 0.0, VIEWPORT);
    pane
}

fn numbered(n: usize) -> String {
    (0..n).map(|i| format!("line {i}")).collect::<Vec<_>>().join("\n")
}

fn lines(doc: &Document) -> Vec<&str> {
    (0..doc.line_count()).map(|i| doc.line(i)).collect()
}

fn starts(doc: &Document) -> Vec<usize> {
    (0..doc.line_count()).map(|i| doc.offset_of(DocCursor::new(i, 0))).collect()
}

#[test]
fn line_index_matches_a_plain_split() {
    let text = "alpha\nbeta\n\nγάμμα δ\nlast";
    let pane = Pane::with_text(text);
    let doc = &pane.doc;
    assert_eq!(lines(doc), text.split('\n').collect::<Vec<_>>());
    assert_eq!(doc.line_count(), 5);
    assert_eq!(starts(doc), vec![0, 6, 11, 12, 26]);
    assert_eq!(doc.text(), text);
    assert_eq!(doc.cols(3), 7, "columns are characters");
    assert_eq!(doc.line_bounds(3), (12, 25));
}

#[test]
fn trailing_newline_makes_an_empty_last_line() {
    let pane = Pane::with_text("a\nb\n");
    assert_eq!(lines(&pane.doc), vec!["a", "b", ""]);
}

#[test]
fn empty_document_has_one_line() {
    let pane = Pane::new();
    assert_eq!(pane.doc.line_count(), 1);
    assert_eq!(pane.doc.line(0), "");
    assert_eq!(pane.doc.chunk_count(), 1);
    assert_eq!(pane.doc.stats(), DocStats {
        resident_chunks: 0,
        shaped_last: 0,
        shaped_total: 0,
        evicted_total: 0,
        lines_shaped_total: 0,
    });
}

#[test]
fn incremental_append_equals_a_single_set_text() {
    let pieces = [
        "first line\nsecond ",
        "line\nthird\n",
        "",
        "fourth\nfifth line is a bit longer\n",
        "\nseventh ends here",
    ];
    let whole: String = pieces.concat();

    let mut appended = Pane::new();
    for piece in pieces {
        appended.append(piece);
    }
    let at_once = Pane::with_text(&whole);

    assert_eq!(appended.doc.text(), at_once.doc.text());
    assert_eq!(appended.doc.line_count(), at_once.doc.line_count());
    assert_eq!(lines(&appended.doc), lines(&at_once.doc));
    assert_eq!(starts(&appended.doc), starts(&at_once.doc));
    assert_eq!(appended.total_height(), at_once.total_height());
}

#[test]
fn append_across_chunk_boundaries_stays_equivalent() {
    let n = CHUNK_LINES * 3 + 7;
    let whole = numbered(n);
    let mut appended = Pane::new();
    for (i, line) in whole.split('\n').enumerate() {
        if i > 0 {
            appended.append("\n");
        }
        appended.append(line);
    }
    let at_once = Pane::with_text(&whole);

    assert_eq!(appended.doc.line_count(), n);
    assert_eq!(lines(&appended.doc), lines(&at_once.doc));
    assert_eq!(starts(&appended.doc), starts(&at_once.doc));
    assert_eq!(appended.doc.chunk_count(), at_once.doc.chunk_count());
}

#[test]
fn append_reshapes_only_the_tail() {
    let mut pane = Pane::with_text(&numbered(CHUNK_LINES * 4));
    pane.set_viewport(WIDTH, 0.0, VIEWPORT);
    let shaped_before = pane.doc.stats().shaped_total;
    assert!(pane.doc.is_shaped(0));

    pane.append("\nbrand new tail line");
    let doc = &pane.doc;
    assert!(doc.is_shaped(0));
    assert!(!doc.is_shaped(doc.chunk_count() - 1));
    assert_eq!(doc.stats().shaped_total, shaped_before);
    assert_eq!(doc.line(doc.line_count() - 1), "brand new tail line");
}

#[test]
fn chunk_buffers_line_up_with_document_lines() {
    let n = CHUNK_LINES * 3 + 5;
    let text = (0..n)
        .map(|i| match i % 4 {
            0 => format!("plain line {i}"),
            1 => String::new(),
            2 => format!("unicode ✓ Ελληνικά κείμενο {i}"),
            _ => format!("tabs\tand  spaces {i}"),
        })
        .collect::<Vec<_>>()
        .join("\n");

    let pane = document(&text);
    let doc = &pane.doc;
    assert!(doc.resident_chunks().len() >= 2);
    for chunk in doc.resident_chunks() {
        let (start, end) = doc.chunk_lines(*chunk);
        let shaped: Vec<&str> = doc.chunk_text(*chunk).split('\n').collect();
        assert_eq!(shaped.len(), end - start, "chunk {chunk}");
        for (i, line) in shaped.iter().enumerate() {
            assert_eq!(*line, doc.line(start + i), "chunk {chunk} line {i}");
        }
    }
}

#[test]
fn window_covers_the_viewport_and_evicts_the_rest() {
    let mut pane = Pane::with_text(&numbered(CHUNK_LINES * 40));
    pane.set_viewport(WIDTH, 0.0, VIEWPORT);

    assert_eq!(pane.doc.resident_chunks(), &vec![0, 1]);
    let first_pass = pane.doc.stats().shaped_last;
    assert!(first_pass <= 3, "first paint shaped {first_pass} chunks");

    let target = pane.top(20);
    pane.set_viewport(WIDTH, target, VIEWPORT);
    let resident = pane.doc.resident_chunks().clone();
    assert!(resident.contains(&20), "{resident:?}");
    assert!(!resident.contains(&0), "{resident:?}");
    for &chunk in &resident {
        assert!(
            chunk.abs_diff(20) <= RETAIN_CHUNKS,
            "chunk {chunk} is outside the retention band: {resident:?}"
        );
    }
    assert!(pane.doc.stats().evicted_total >= 2);

    let shaped_before = pane.doc.stats().shaped_total;
    pane.set_viewport(WIDTH, pane.top(21), VIEWPORT);
    assert!(pane.doc.resident_chunks().contains(&20));
    assert!(pane.doc.stats().shaped_total - shaped_before <= 2);
}

#[test]
fn first_paint_touches_only_the_window() {
    let mut pane = Pane::with_text(&numbered(CHUNK_LINES * 200));
    pane.set_viewport(WIDTH, 0.0, VIEWPORT);
    let stats = pane.doc.stats();
    assert!(stats.shaped_total <= 5, "{stats:?}");
    assert!(stats.lines_shaped_total <= 5 * CHUNK_LINES, "{stats:?}");
    assert_eq!(pane.doc.line_count(), CHUNK_LINES * 200);
}

#[test]
fn heights_start_estimated_and_get_corrected() {
    let long = "WMWM ".repeat(30);
    let text = (0..CHUNK_LINES * 8).map(|i| format!("{i:04} {long}")).collect::<Vec<_>>().join("\n");

    let mut pane = Pane::with_text(&text);
    // Wider than the estimate takes a character to be.
    pane.advance = 13.0;
    assert_eq!(pane.doc.chunk_count(), 8);

    pane.set_viewport(WIDTH, f32::MAX, VIEWPORT);
    assert!(!pane.doc.is_shaped(0));
    assert!(!pane.doc.is_shaped(1));
    let estimated_total = pane.total_height();
    let estimated_chunk = pane.top(1) - pane.top(0);
    assert!((pane.top(2) - pane.top(1) - estimated_chunk).abs() < 0.01);

    pane.set_viewport(WIDTH, 0.0, VIEWPORT);
    let corrected = pane.doc.resident_chunks().clone();
    assert_eq!(corrected, vec![0, 1]);

    let measured_chunk = pane.top(1) - pane.top(0);
    assert!((measured_chunk - pane.measured(0)).abs() < 0.01);
    assert!(measured_chunk > estimated_chunk, "{measured_chunk} vs {estimated_chunk}");

    let expected = estimated_total + (measured_chunk - estimated_chunk) * corrected.len() as f32;
    assert!((pane.total_height() - expected).abs() < 1.0, "{} vs {expected}", pane.total_height());
    let middle = pane.top(3) - pane.top(2);
    assert!((middle - estimated_chunk).abs() < 0.01, "the unvisited middle should still be an estimate");
}

#[test]
fn resizing_re_estimates_and_re_shapes() {
    let long = "wrapping text ".repeat(12);
    let text = (0..CHUNK_LINES * 2).map(|i| format!("{i} {long}")).collect::<Vec<_>>().join("\n");
    let mut pane = document(&text);
    let narrow = pane.total_height();

    pane.set_viewport(WIDTH * 3.0, 0.0, VIEWPORT);
    assert!(pane.total_height() < narrow, "a wider pane must wrap less: {} vs {narrow}", pane.total_height());
}

#[test]
fn find_all_spans_unshaped_regions() {
    let n = CHUNK_LINES * 6;
    let text = (0..n)
        .map(|i| {
            if i % 100 == 3 {
                format!("line {i} has a NEEDLE in it")
            } else {
                format!("line {i} is ordinary")
            }
        })
        .collect::<Vec<_>>()
        .join("\n");

    let pane = document(&text);
    let doc = &pane.doc;
    assert!(doc.resident_chunks().len() <= 3);

    let hits = doc.find_all("NEEDLE");
    let expected: Vec<usize> = (0..n).filter(|i| i % 100 == 3).collect();
    assert_eq!(hits.len(), expected.len());
    assert!(hits.len() > 4);
    for ((a, b), line) in hits.iter().zip(&expected) {
        assert_eq!(a.line, *line);
        assert_eq!(b.line, *line);
        assert_eq!(a.byte, doc.line(*line).find("NEEDLE").unwrap());
        assert_eq!(doc.text_between(*a, *b), "NEEDLE");
    }
    let last = hits.last().unwrap().0.line;
    assert!(!doc.is_shaped(doc.chunk_of_line(last)));

    assert!(doc.find_all("").is_empty());
    assert!(doc.find_all("no such text").is_empty());
}

#[test]
fn find_all_handles_multi_line_needles() {
    let pane = document("alpha\nbeta\ngamma\ndelta");
    let doc = &pane.doc;
    let hits = doc.find_all("beta\ngamma");
    assert_eq!(hits.len(), 1);
    assert_eq!(hits[0].0, DocCursor::new(1, 0));
    assert_eq!(hits[0].1, DocCursor::new(2, 5));
    assert_eq!(doc.text_between(hits[0].0, hits[0].1), "beta\ngamma");
}

#[test]
fn text_between_reads_straight_from_the_backing_text() {
    let n = CHUNK_LINES * 5;
    let text = numbered(n);
    let pane = document(&text);
    let doc = &pane.doc;

    let a = DocCursor::new(2, 0);
    let b = DocCursor::new(n - 1, doc.line(n - 1).len());
    assert_eq!(doc.text_between(a, b), text[doc.offset_of(a)..]);
    assert_eq!(doc.text_between(b, a), doc.text_between(a, b));
    let far = DocCursor::new(n - 3, 0);
    assert_eq!(doc.text_between(far, DocCursor::new(n - 3, 4)), "line");
}

#[test]
fn doc_cursors_map_to_chunk_local_cursors() {
    let n = CHUNK_LINES * 10;
    let mut pane = Pane::with_text(&numbered(n));
    let line = CHUNK_LINES * 5 + 9;
    pane.set_viewport(WIDTH, pane.top(5) + 9.0 * LINE_HEIGHT, VIEWPORT);

    // The middle of the line's row is in chunk 5, and the row after is the next line.
    let y = pane.top(5) + 9.5 * LINE_HEIGHT;
    let distances: Vec<u32> = pane
        .doc
        .window()
        .iter()
        .map(|c| {
            let (top, bottom) = (pane.top(*c), pane.top(*c + 1));
            let d = if y < top {
                top - y
            } else if y > bottom {
                y - bottom
            } else {
                0.0
            };
            d.to_bits()
        })
        .collect();
    let chunk = pane.doc.nearest_chunk(&distances).expect("the shaped window covers the viewport");
    assert_eq!(chunk, 5);
    let hit = pane.doc.to_doc(chunk, 9, 0);
    assert_eq!(hit, DocCursor::new(line, 0));
    assert_eq!(pane.doc.chunk_of_line(hit.line), 5);
    let end = pane.doc.to_doc(chunk, 9, pane.doc.line(line).len());
    assert_eq!(pane.doc.text_between(hit, end), pane.doc.line(line));
    assert_eq!(pane.doc.to_doc(chunk, 10, 0).line, line + 1);
}

#[test]
fn selection_rects_cover_the_visible_part_only() {
    let n = CHUNK_LINES * 8;
    let pane = document(&numbered(n));
    let doc = &pane.doc;

    let spans = |a: DocCursor, b: DocCursor| -> Vec<(DocCursor, DocCursor)> {
        doc.window().iter().filter_map(|c| doc.selection_in_chunk(*c, a, b)).collect()
    };
    let all = spans(DocCursor::new(0, 0), DocCursor::new(n - 1, 0));
    assert!(!all.is_empty());
    assert_eq!(all.len(), doc.window().len());
    assert_eq!(all[0].0, DocCursor::new(0, 0));
    let (first, last) = doc.chunk_lines(doc.window()[0]);
    assert_eq!(all[0].1, DocCursor::new(last - 1 - first, doc.line(last - 1).len()));

    assert!(spans(DocCursor::new(n - 5, 0), DocCursor::new(n - 1, 0)).is_empty());

    let a = DocCursor::new(1, 0);
    let b = DocCursor::new(1, 4);
    assert_eq!(spans(a, b), vec![(a, b)]);
    assert_eq!(spans(b, a), vec![(a, b)]);
}

#[test]
fn offsets_round_trip_through_cursors() {
    let text = "alpha\n\nγάμμα\nomega";
    let pane = Pane::with_text(text);
    let doc = &pane.doc;
    for (offset, _) in text.char_indices() {
        let c = doc.cursor_at_offset(offset);
        assert_eq!(doc.offset_of(c), offset, "offset {offset}");
    }
    assert_eq!(doc.cursor_at_offset(text.len()).line, 3);
    assert_eq!(doc.cursor_at_offset(usize::MAX).line, 3);
}

#[test]
fn offsets_are_clamped_to_the_line() {
    let pane = Pane::with_text("ab\ncdef");
    assert_eq!(pane.doc.offset_of(DocCursor::new(0, 9)), 2);
    assert_eq!(pane.doc.offset_of(DocCursor::new(7, 1)), 4, "past the end is the last line");
    assert_eq!(pane.doc.offset_of(DocCursor::new(1, 2)), 5);
}

#[test]
fn cursors_order_by_line_and_then_byte() {
    let (a, b) = (DocCursor::new(1, 9), DocCursor::new(2, 0));
    assert_eq!(order(b, a), (a, b));
    let c = DocCursor::new(1, 10);
    assert_eq!(order(c, a), (a, c));
    assert!(a < c && c < b);
}

#[test]
fn a_pass_plans_the_window() {
    let mut pane = Pane::with_text(&numbered(CHUNK_LINES * 40));
    pane.set_viewport(WIDTH, 0.0, VIEWPORT);
    let plan: Pass = pane.doc.plan((pane.top(3) + 1.0).to_bits());
    assert_eq!((plan.first, plan.last), (0, 3));
    assert_eq!((plan.lo, plan.hi), (0, 3 + WINDOW_CHUNKS));
    assert_eq!(plan.missing, vec![2, 3, 4]);
}

#[test]
fn a_viewport_taller_than_the_document_keeps_no_more_than_the_cap() {
    let mut pane = Pane::with_text(&numbered(CHUNK_LINES * 40));
    pane.set_viewport(WIDTH, 0.0, 1.0e9);
    let resident = pane.doc.resident_chunks().to_vec();
    assert_eq!(resident.len(), MAX_RESIDENT);
    assert_eq!(pane.doc.stats().resident_chunks, MAX_RESIDENT);
    assert_eq!(pane.doc.stats().shaped_total, 40);
    assert_eq!(pane.doc.stats().evicted_total, 40 - MAX_RESIDENT);
    // Those nearest to the middle of the viewport stay.
    assert_eq!(resident, (12..28).collect::<Vec<usize>>());
    assert_eq!(pane.doc.window().to_vec(), resident);
    // The cap holds however often the viewport is set.
    pane.set_viewport(WIDTH, 0.0, 1.0e9);
    assert_eq!(pane.doc.resident_chunks().to_vec(), resident);
    // A window that it has room for stays whole.
    pane.set_viewport(WIDTH, 0.0, VIEWPORT);
    assert_eq!(pane.doc.window().to_vec(), vec![0, 1]);
}

#[test]
fn a_document_forgets_its_layout_when_told_to() {
    let mut pane = document(&numbered(CHUNK_LINES * 3));
    assert_eq!(pane.doc.stats().resident_chunks, 2);
    pane.doc.invalidate_shaping();
    pane.estimate(0);
    assert!(pane.doc.resident_chunks().is_empty());
    assert!(pane.doc.window().is_empty());
    assert_eq!(pane.doc.stats().evicted_total, 2);
    assert_eq!(pane.doc.stats().resident_chunks, 0, "nothing is laid out now");
    assert_eq!(f32::from_bits(pane.doc.scroll_y()), 0.0);
    assert_eq!(f32::from_bits(pane.doc.viewport_height()), VIEWPORT);
}

#[test]
fn the_lines_of_a_chunk_are_the_lines_of_the_document() {
    let text: String = (0..300).map(|i| format!("line {i}\n")).collect();
    let mut doc = faf_text::document::Document::new();
    doc.set_text(&text);
    for chunk in 0..doc.chunk_count() {
        let (first, end) = doc.chunk_lines(chunk);
        let lines: Vec<&str> = doc.chunk_text(chunk).split('\n').collect();
        assert_eq!(lines.len(), end - first);
        for (k, line) in lines.iter().enumerate() {
            assert_eq!(*line, doc.line(first + k), "line {k} of chunk {chunk}");
        }
    }
}

#[test]
fn the_chunks_share_the_lines_out_in_order() {
    let mut doc = faf_text::document::Document::new();
    assert_eq!(doc.chunk_lines(0), (0, 1));
    assert_eq!(doc.chunk_lines(1), (1, 1));
    doc.set_text(&"x\n".repeat(300));
    assert_eq!(doc.chunk_count(), 3);
    assert_eq!(doc.chunk_lines(0), (0, 128));
    assert_eq!(doc.chunk_lines(1), (128, 256));
    assert_eq!(doc.chunk_lines(2), (256, 301));
    assert_eq!(doc.chunk_lines(3), (301, 301));
    assert_eq!(doc.chunk_lines(usize::MAX), (301, 301));
    for line in 0..301 {
        let (first, end) = doc.chunk_lines(doc.chunk_of_line(line));
        assert!(first <= line && line < end, "line {line}");
    }
}

#[test]
fn the_lines_joined_with_newlines_are_the_text() {
    for text in ["", "\n", "one", "one\ntwo\n", "\n\nγ\n", "a\r\nb"] {
        let pane = Pane::with_text(text);
        assert_eq!(lines(&pane.doc).join("\n"), text);
        assert_eq!(pane.doc.line_count(), 1 + text.matches('\n').count());
        assert!(lines(&pane.doc).iter().all(|line| !line.contains('\n')));
    }
}

#[test]
fn matches_read_like_the_needle_and_none_is_missed() {
    let text = "aaaa\nbaab\na";
    let pane = Pane::with_text(text);
    let found = pane.doc.find_all("aa");
    let at: Vec<(usize, usize)> =
        found.iter().map(|(a, b)| (pane.doc.offset_of(*a), pane.doc.offset_of(*b))).collect();
    assert_eq!(at, vec![(0, 2), (2, 4), (6, 8)]);
    assert!(found.iter().all(|(a, b)| pane.doc.text_between(*a, *b) == "aa"));
    assert_eq!(pane.doc.find_all("b\na").len(), 1);
}

#[test]
fn the_counters_follow_the_laid_out_chunks() {
    let mut pane = Pane::with_text(&numbered(CHUNK_LINES * 6));
    pane.set_viewport(WIDTH, 0.0, VIEWPORT);
    assert_eq!(pane.doc.stats().resident_chunks, 2);
    // An append changes the last chunk on, which is not laid out.
    pane.append("more");
    assert_eq!(pane.doc.stats().resident_chunks, 2);
    let end = pane.total_height();
    pane.set_viewport(WIDTH, end, VIEWPORT);
    let resident = pane.doc.resident_chunks().len();
    assert_eq!(pane.doc.stats().resident_chunks, resident);
    // Now it is.
    pane.append("and more");
    assert_eq!(pane.doc.resident_chunks().len(), resident - 1);
    assert_eq!(pane.doc.stats().resident_chunks, resident - 1);
    pane.set_text("short");
    assert_eq!(pane.doc.stats().resident_chunks, 0);
}
