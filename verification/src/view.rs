//! Cursor motion over shaped text.
//!
//! A [`TextView`] holds what motion reads of a laid-out text: the text of every line, and
//! for every visual row the line it belongs to and the bytes its glyphs cover. Where a row
//! or a glyph is on screen is the caller's.
use crate::graphemes;
use crate::search;
use crate::text;
use vstd::prelude::*;
use vstd::string::*;
use vstd::utf8::*;

verus! {

/// Which row a cursor at a soft wrap belongs to: the one before the break, or the one after.
#[derive(Clone, Copy, Debug, PartialEq, Eq, PartialOrd, Ord, Structural)]
pub enum Affinity {
    Before,
    After,
}

/// A position in the text: a line, and a byte offset in it.
#[derive(Clone, Copy, Debug, PartialEq, Eq, PartialOrd, Ord, Structural)]
pub struct Cursor {
    pub line: usize,
    pub index: usize,
    pub affinity: Affinity,
}

impl Cursor {
    /// A cursor that stays on the row before a break.
    pub fn new(line: usize, index: usize) -> (cursor: Cursor)
        ensures
            cursor == (Cursor { line, index, affinity: Affinity::Before }),
    {
        Cursor { line, index, affinity: Affinity::Before }
    }

    /// A cursor with its affinity.
    pub fn new_with_affinity(line: usize, index: usize, affinity: Affinity) -> (cursor: Cursor)
        ensures
            cursor == (Cursor { line, index, affinity }),
    {
        Cursor { line, index, affinity }
    }

    /// The cursor is at another, or before it: by line, then byte, then affinity.
    pub open spec fn at_most(self, other: Cursor) -> bool {
        self.line < other.line || self.line == other.line && (self.index < other.index
            || self.index == other.index && (self.affinity == Affinity::Before || other.affinity
            == Affinity::After))
    }
}

/// Two cursors, the first one first.
pub fn ordered(a: Cursor, b: Cursor) -> (pair: (Cursor, Cursor))
    ensures
        pair == (if a.at_most(b) {
            (a, b)
        } else {
            (b, a)
        }),
{
    if a.line < b.line || a.line == b.line && (a.index < b.index || a.index == b.index && (
    a.affinity == Affinity::Before || b.affinity == Affinity::After)) {
        (a, b)
    } else {
        (b, a)
    }
}

/// A character that carries no content: white space, as Unicode has it.
pub open spec fn is_whitespace(c: char) -> bool {
    let n = c as u32;
    ||| 0x9 <= n <= 0xD
    ||| n == 0x20
    ||| n == 0x85
    ||| n == 0xA0
    ||| n == 0x1680
    ||| 0x2000 <= n <= 0x200A
    ||| n == 0x2028
    ||| n == 0x2029
    ||| n == 0x202F
    ||| n == 0x205F
    ||| n == 0x3000
}

/// All white space, or nothing at all.
pub open spec fn blank(text: Seq<char>) -> bool {
    forall|i: int| 0 <= i < text.len() ==> is_whitespace(#[trigger] text[i])
}

/// Whether a piece of text carries no word content.
pub fn is_blank(s: &str) -> (yes: bool)
    ensures
        yes == blank(s@),
{
    for c in chars: s.chars()
        invariant
            chars.seq() == s@,
            forall|i: int| 0 <= i < chars.index() ==> is_whitespace(#[trigger] s@[i]),
    {
        let n: u32 = c as u32;
        let white: bool = (0x9 <= n && n <= 0xD) || n == 0x20 || n == 0x85 || n == 0xA0 || n
            == 0x1680 || (0x2000 <= n && n <= 0x200A) || n == 0x2028 || n == 0x2029 || n == 0x202F
            || n == 0x205F || n == 0x3000;
        if !white {
            assert(!is_whitespace(s@[chars.index() as int]));
            return false;
        }
    }
    true
}

/// Where the last of the first `n` pieces that starts before `at` starts, or 0.
pub open spec fn start_before(pieces: Seq<Seq<char>>, at: int, n: int) -> int
    decreases n,
{
    if n <= 0 {
        0
    } else if graphemes::bytes_before(pieces, n - 1) < at {
        graphemes::bytes_before(pieces, n - 1)
    } else {
        start_before(pieces, at, n - 1)
    }
}

/// Where the last cluster that starts before `at` starts, or 0.
pub fn cluster_before(clusters: &Vec<String>, at: usize) -> (start: usize)
    requires
        graphemes::bytes_before(
            graphemes::texts(clusters@),
            clusters@.len() as int,
        ) <= usize::MAX,
    ensures
        start == start_before(graphemes::texts(clusters@), at as int, clusters@.len() as int),
{
    let ghost pieces = graphemes::texts(clusters@);
    let mut start: usize = 0;
    let mut sum: usize = 0;
    let mut i: usize = 0;
    while i < clusters.len()
        invariant
            i <= clusters@.len(),
            pieces == graphemes::texts(clusters@),
            graphemes::bytes_before(pieces, clusters@.len() as int) <= usize::MAX,
            sum == graphemes::bytes_before(pieces, i as int),
            start == start_before(pieces, at as int, i as int),
        decreases clusters@.len() - i,
    {
        if sum < at {
            start = sum;
        }
        proof {
            graphemes::lemma_bytes_before_ascend(pieces, i + 1, clusters@.len() as int);
        }
        sum = sum + clusters[i].as_str().as_bytes().len();
        i = i + 1;
    }
    start
}

/// Where the first of some pieces ends that start at `at`, or `end` where there is none.
pub open spec fn end_after(pieces: Seq<Seq<char>>, at: int, end: int) -> int {
    if pieces.len() == 0 {
        end
    } else {
        at + byte_len(pieces[0])
    }
}

/// Where the first of the clusters ends that start at `at`, or `end` where there is none.
pub fn cluster_after(clusters: &Vec<String>, at: usize, end: usize) -> (next: usize)
    requires
        clusters@.len() > 0 ==> at + byte_len(clusters@[0]@) <= usize::MAX,
    ensures
        next == end_after(graphemes::texts(clusters@), at as int, end as int),
{
    if clusters.len() == 0 {
        end
    } else {
        at + clusters[0].as_str().as_bytes().len()
    }
}

/// Where the last of the first `n` pieces that starts before `at` and is not blank starts.
pub open spec fn word_before(pieces: Seq<Seq<char>>, at: int, n: int) -> Option<int>
    decreases n,
{
    if n <= 0 {
        None
    } else if graphemes::bytes_before(pieces, n - 1) < at && !blank(pieces[n - 1]) {
        Some(graphemes::bytes_before(pieces, n - 1))
    } else {
        word_before(pieces, at, n - 1)
    }
}

/// Where the last word that starts before `at` starts.
pub fn word_start_before(pieces: &Vec<String>, at: usize) -> (start: Option<usize>)
    requires
        graphemes::bytes_before(graphemes::texts(pieces@), pieces@.len() as int) <= usize::MAX,
    ensures
        as_int(start) == word_before(
            graphemes::texts(pieces@),
            at as int,
            pieces@.len() as int,
        ),
{
    let ghost all = graphemes::texts(pieces@);
    let mut start: Option<usize> = None;
    let mut sum: usize = 0;
    let mut i: usize = 0;
    while i < pieces.len()
        invariant
            i <= pieces@.len(),
            all == graphemes::texts(pieces@),
            graphemes::bytes_before(all, pieces@.len() as int) <= usize::MAX,
            sum == graphemes::bytes_before(all, i as int),
            as_int(start) == word_before(all, at as int, i as int),
        decreases pieces@.len() - i,
    {
        if sum < at && !is_blank(pieces[i].as_str()) {
            start = Some(sum);
        }
        proof {
            graphemes::lemma_bytes_before_ascend(all, i + 1, pieces@.len() as int);
        }
        sum = sum + pieces[i].as_str().as_bytes().len();
        i = i + 1;
    }
    start
}

/// An offset as a number.
pub open spec fn as_int(offset: Option<usize>) -> Option<int> {
    match offset {
        Some(n) => Some(n as int),
        None => None,
    }
}

/// Where the first piece from `n` on that ends behind `at` and is not blank ends.
pub open spec fn word_after(pieces: Seq<Seq<char>>, at: int, n: int) -> Option<int>
    decreases pieces.len() - n,
{
    if n >= pieces.len() {
        None
    } else if graphemes::bytes_before(pieces, n + 1) > at && !blank(pieces[n]) {
        Some(graphemes::bytes_before(pieces, n + 1))
    } else {
        word_after(pieces, at, n + 1)
    }
}

/// Where the first word that ends behind `at` ends.
pub fn word_end_after(pieces: &Vec<String>, at: usize) -> (end: Option<usize>)
    requires
        graphemes::bytes_before(graphemes::texts(pieces@), pieces@.len() as int) <= usize::MAX,
    ensures
        as_int(end) == word_after(graphemes::texts(pieces@), at as int, 0),
{
    let ghost all = graphemes::texts(pieces@);
    let mut sum: usize = 0;
    let mut i: usize = 0;
    while i < pieces.len()
        invariant
            i <= pieces@.len(),
            all == graphemes::texts(pieces@),
            graphemes::bytes_before(all, pieces@.len() as int) <= usize::MAX,
            sum == graphemes::bytes_before(all, i as int),
            word_after(all, at as int, i as int) == word_after(all, at as int, 0),
        decreases pieces@.len() - i,
    {
        proof {
            graphemes::lemma_bytes_before_ascend(all, i + 1, pieces@.len() as int);
        }
        sum = sum + pieces[i].as_str().as_bytes().len();
        if sum > at && !is_blank(pieces[i].as_str()) {
            return Some(sum);
        }
        i = i + 1;
    }
    None
}

/// The bytes that a glyph covers of its line.
#[derive(Clone, Copy, Debug, PartialEq, Eq, Structural)]
pub struct GlyphSpan {
    pub start: usize,
    pub end: usize,
}

/// A visual row: the line it belongs to, and its glyphs.
pub struct VisualRow {
    pub line: usize,
    pub glyphs: Vec<GlyphSpan>,
}

/// The least start and the greatest end of the first `n` glyphs.
pub open spec fn span_of(glyphs: Seq<GlyphSpan>, n: int) -> GlyphSpan
    decreases n,
{
    if n <= 1 {
        glyphs[0]
    } else {
        let before = span_of(glyphs, n - 1);
        let last = glyphs[n - 1];
        GlyphSpan {
            start: if last.start < before.start {
                last.start
            } else {
                before.start
            },
            end: if last.end > before.end {
                last.end
            } else {
                before.end
            },
        }
    }
}

/// The bytes that a row's glyphs cover; nothing for a row without glyphs.
pub fn run_span(glyphs: &Vec<GlyphSpan>) -> (span: Option<GlyphSpan>)
    ensures
        span == (if glyphs@.len() == 0 {
            None
        } else {
            Some(span_of(glyphs@, glyphs@.len() as int))
        }),
{
    if glyphs.len() == 0 {
        return None;
    }
    let mut span: GlyphSpan = glyphs[0];
    let mut i: usize = 1;
    while i < glyphs.len()
        invariant
            1 <= i <= glyphs@.len(),
            span == span_of(glyphs@, i as int),
        decreases glyphs@.len() - i,
    {
        let glyph: GlyphSpan = glyphs[i];
        span = GlyphSpan {
            start: if glyph.start < span.start {
                glyph.start
            } else {
                span.start
            },
            end: if glyph.end > span.end {
                glyph.end
            } else {
                span.end
            },
        };
        i = i + 1;
    }
    Some(span)
}

/// The span covers every glyph, and starts and ends with one.
pub proof fn lemma_span_covers(glyphs: Seq<GlyphSpan>, n: int)
    requires
        1 <= n <= glyphs.len(),
    ensures
        forall|i: int|
            0 <= i < n ==> span_of(glyphs, n).start <= (#[trigger] glyphs[i]).start
                && glyphs[i].end <= span_of(glyphs, n).end,
        exists|i: int| 0 <= i < n && (#[trigger] glyphs[i]).start == span_of(glyphs, n).start,
        exists|i: int| 0 <= i < n && (#[trigger] glyphs[i]).end == span_of(glyphs, n).end,
    decreases n,
{
    if n > 1 {
        lemma_span_covers(glyphs, n - 1);
        let first = choose|i: int|
            0 <= i < n - 1 && (#[trigger] glyphs[i]).start == span_of(glyphs, n - 1).start;
        let last = choose|i: int|
            0 <= i < n - 1 && (#[trigger] glyphs[i]).end == span_of(glyphs, n - 1).end;
        assert(glyphs[first].start == span_of(glyphs, n).start || glyphs[n - 1].start == span_of(
            glyphs,
            n,
        ).start);
        assert(glyphs[last].end == span_of(glyphs, n).end || glyphs[n - 1].end == span_of(
            glyphs,
            n,
        ).end);
    } else {
        assert(glyphs[0].start == span_of(glyphs, n).start);
        assert(glyphs[0].end == span_of(glyphs, n).end);
    }
}

/// What a [`VisualRow`] holds.
pub ghost struct RowState {
    pub line: usize,
    pub glyphs: Seq<GlyphSpan>,
}

impl RowState {
    /// The bytes that the row covers; a row without glyphs is at the start of its line.
    pub open spec fn span(self) -> GlyphSpan {
        if self.glyphs.len() == 0 {
            GlyphSpan { start: 0, end: 0 }
        } else {
            span_of(self.glyphs, self.glyphs.len() as int)
        }
    }

    /// The index is in the row, or at one of its edges.
    pub open spec fn covers(self, index: usize) -> bool {
        self.span().start <= index <= self.span().end
    }
}

/// What a [`TextView`] holds.
pub ghost struct ViewState {
    pub lines: Seq<Seq<char>>,
    pub rows: Seq<RowState>,
}

/// The bytes of a text.
pub open spec fn byte_len(text: Seq<char>) -> int {
    encode_utf8(text).len() as int
}

/// The first row from `i` on that belongs to the line, or the number of rows.
pub open spec fn first_of_line(rows: Seq<RowState>, line: usize, i: int) -> int
    decreases rows.len() - i,
{
    if i >= rows.len() {
        rows.len() as int
    } else if rows[i].line == line {
        i
    } else {
        first_of_line(rows, line, i + 1)
    }
}

/// The first row from `i` on that does not belong to the line, or the number of rows.
pub open spec fn end_of_line(rows: Seq<RowState>, line: usize, i: int) -> int
    decreases rows.len() - i,
{
    if i >= rows.len() {
        rows.len() as int
    } else if rows[i].line != line {
        i
    } else {
        end_of_line(rows, line, i + 1)
    }
}

/// The first of the rows `i..end` that covers the index, or `end`.
pub open spec fn first_covering(rows: Seq<RowState>, index: usize, i: int, end: int) -> int
    decreases end - i,
{
    if i >= end {
        end
    } else if rows[i].covers(index) {
        i
    } else {
        first_covering(rows, index, i + 1, end)
    }
}

impl ViewState {
    /// One grapheme cluster left, crossing into the line before at a line start.
    pub open spec fn left(self, c: Cursor) -> Cursor {
        if c.line >= self.lines.len() {
            c
        } else if c.index > 0 {
            let clusters = graphemes::grapheme_clusters(self.lines[c.line as int]);
            Cursor {
                line: c.line,
                index: start_before(clusters, c.index as int, clusters.len() as int) as usize,
                affinity: Affinity::After,
            }
        } else if c.line > 0 {
            Cursor {
                line: (c.line - 1) as usize,
                index: byte_len(self.lines[c.line - 1]) as usize,
                affinity: Affinity::After,
            }
        } else {
            c
        }
    }

    /// One grapheme cluster right, crossing into the next line at a line end. A cursor
    /// inside a character stays.
    pub open spec fn right(self, c: Cursor) -> Cursor {
        if c.line >= self.lines.len() {
            c
        } else {
            let bytes = encode_utf8(self.lines[c.line as int]);
            if c.index < bytes.len() {
                if is_char_boundary(bytes, c.index as int) {
                    let rest = decode_utf8(bytes.subrange(c.index as int, bytes.len() as int));
                    let clusters = graphemes::grapheme_clusters(rest);
                    let index = end_after(clusters, c.index as int, bytes.len() as int);
                    Cursor { line: c.line, index: index as usize, affinity: Affinity::Before }
                } else {
                    c
                }
            } else if c.line + 1 < self.lines.len() {
                Cursor { line: (c.line + 1) as usize, index: 0, affinity: Affinity::Before }
            } else {
                c
            }
        }
    }

    /// To the start of the word left of the cursor, crossing into the line before if
    /// needed.
    pub open spec fn word_left(self, c: Cursor) -> Cursor {
        if c.line >= self.lines.len() {
            c
        } else {
            let pieces = graphemes::word_pieces(self.lines[c.line as int]);
            match word_before(pieces, c.index as int, pieces.len() as int) {
                Some(start) => Cursor {
                    line: c.line,
                    index: start as usize,
                    affinity: Affinity::After,
                },
                None => if c.index > 0 {
                    Cursor { line: c.line, index: 0, affinity: Affinity::After }
                } else if c.line > 0 {
                    Cursor {
                        line: (c.line - 1) as usize,
                        index: byte_len(self.lines[c.line - 1]) as usize,
                        affinity: Affinity::After,
                    }
                } else {
                    c
                },
            }
        }
    }

    /// To the end of the word right of the cursor, crossing into the next line if needed.
    pub open spec fn word_right(self, c: Cursor) -> Cursor {
        if c.line >= self.lines.len() {
            c
        } else {
            let text = self.lines[c.line as int];
            match word_after(graphemes::word_pieces(text), c.index as int, 0) {
                Some(end) => Cursor {
                    line: c.line,
                    index: end as usize,
                    affinity: Affinity::Before,
                },
                None => if c.index < byte_len(text) {
                    Cursor {
                        line: c.line,
                        index: byte_len(text) as usize,
                        affinity: Affinity::Before,
                    }
                } else if c.line + 1 < self.lines.len() {
                    Cursor { line: (c.line + 1) as usize, index: 0, affinity: Affinity::Before }
                } else {
                    c
                },
            }
        }
    }

    /// The row a cursor is on: of its line's rows, the first that covers it, the last one
    /// where none does. At a soft wrap two rows cover it: the affinity tells which.
    pub open spec fn row_of(self, c: Cursor) -> Option<int> {
        let first = first_of_line(self.rows, c.line, 0);
        let end = end_of_line(self.rows, c.line, first);
        let hit = first_covering(self.rows, c.index, first, end);
        let next = first_covering(self.rows, c.index, hit + 1, end);
        if first == self.rows.len() {
            None
        } else if hit == end {
            Some(end - 1)
        } else if c.affinity == Affinity::After && next < end {
            Some(next)
        } else {
            Some(hit)
        }
    }

    /// The matches of a needle in the first `n` lines.
    pub open spec fn found_in(self, needle: Seq<u8>, n: int) -> Seq<(Cursor, Cursor)>
        decreases n,
    {
        if n <= 0 {
            Seq::empty()
        } else {
            self.found_in(needle, n - 1) + matches_in_line(
                (n - 1) as usize,
                search::matches_from(encode_utf8(self.lines[n - 1]), needle, 0),
                needle.len() as int,
            )
        }
    }
}

/// Matches at some offsets of a line, as pairs of cursors.
pub open spec fn matches_in_line(line: usize, offsets: Seq<int>, len: int) -> Seq<
    (Cursor, Cursor),
> {
    offsets.map_values(
        |at: int|
            (
                Cursor { line, index: at as usize, affinity: Affinity::Before },
                Cursor { line, index: (at + len) as usize, affinity: Affinity::Before },
            ),
    )
}

/// Over a line break and back is where it started.
pub proof fn lemma_line_crossing_round_trip(view: ViewState, line: usize)
    requires
        line + 1 < view.lines.len() <= usize::MAX,
        byte_len(view.lines[line as int]) <= usize::MAX,
    ensures
        ({
            let end = Cursor {
                line,
                index: byte_len(view.lines[line as int]) as usize,
                affinity: Affinity::After,
            };
            let next = Cursor {
                line: (line + 1) as usize,
                index: 0,
                affinity: Affinity::Before,
            };
            view.right(end) == next && view.left(next) == end
        }),
{
}

/// The row a cursor is on belongs to its line, and covers it if any row of the line's does.
pub proof fn lemma_row_of(view: ViewState, c: Cursor)
    ensures
        match view.row_of(c) {
            None => forall|i: int|
                0 <= i < view.rows.len() ==> (#[trigger] view.rows[i]).line != c.line,
            Some(row) => {
                let first = first_of_line(view.rows, c.line, 0);
                let end = end_of_line(view.rows, c.line, first);
                &&& 0 <= row < view.rows.len()
                &&& view.rows[row].line == c.line
                &&& view.rows[row].covers(c.index) || forall|i: int|
                    first <= i < end ==> !(#[trigger] view.rows[i]).covers(c.index)
            },
        },
{
    lemma_first_of_line(view.rows, c.line, 0);
    let first = first_of_line(view.rows, c.line, 0);
    if first < view.rows.len() {
        lemma_end_of_line(view.rows, c.line, first);
        let end = end_of_line(view.rows, c.line, first);
        lemma_first_covering(view.rows, c.index, first, end);
        let hit = first_covering(view.rows, c.index, first, end);
        if hit < end {
            lemma_first_covering(view.rows, c.index, hit + 1, end);
        }
    }
}

proof fn lemma_first_of_line(rows: Seq<RowState>, line: usize, i: int)
    requires
        0 <= i <= rows.len(),
    ensures
        i <= first_of_line(rows, line, i) <= rows.len(),
        first_of_line(rows, line, i) < rows.len() ==> rows[first_of_line(rows, line, i)].line
            == line,
        forall|k: int|
            i <= k < first_of_line(rows, line, i) ==> (#[trigger] rows[k]).line != line,
    decreases rows.len() - i,
{
    if i < rows.len() && rows[i].line != line {
        lemma_first_of_line(rows, line, i + 1);
    }
}

proof fn lemma_end_of_line(rows: Seq<RowState>, line: usize, i: int)
    requires
        0 <= i <= rows.len(),
    ensures
        i <= end_of_line(rows, line, i) <= rows.len(),
        i < rows.len() && rows[i].line == line ==> i < end_of_line(rows, line, i),
        forall|k: int| i <= k < end_of_line(rows, line, i) ==> (#[trigger] rows[k]).line == line,
    decreases rows.len() - i,
{
    if i < rows.len() && rows[i].line == line {
        lemma_end_of_line(rows, line, i + 1);
    }
}

proof fn lemma_first_covering(rows: Seq<RowState>, index: usize, i: int, end: int)
    requires
        0 <= i <= end <= rows.len(),
    ensures
        i <= first_covering(rows, index, i, end) <= end,
        first_covering(rows, index, i, end) < end ==> rows[first_covering(
            rows,
            index,
            i,
            end,
        )].covers(index),
        forall|k: int|
            i <= k < first_covering(rows, index, i, end) ==> !(#[trigger] rows[k]).covers(index),
    decreases end - i,
{
    if i < end && !rows[i].covers(index) {
        lemma_first_covering(rows, index, i + 1, end);
    }
}

/// A piece with some content: a character in it is no white space.
pub open spec fn is_word(piece: Seq<char>) -> bool {
    exists|k: int| 0 <= k < piece.len() && !is_whitespace(#[trigger] piece[k])
}

/// Where a piece starts: the bytes of all the text before it.
pub open spec fn starts_at(pieces: Seq<Seq<char>>, i: int) -> int {
    byte_len(graphemes::joined(pieces.take(i)))
}

/// Among some pieces, `start` is where the last word starts that starts before `at`.
pub open spec fn is_word_start_before(pieces: Seq<Seq<char>>, at: int, start: int) -> bool {
    &&& start < at
    &&& exists|i: int|
        0 <= i < pieces.len() && is_word(#[trigger] pieces[i]) && starts_at(pieces, i) == start
    &&& forall|i: int|
        0 <= i < pieces.len() && is_word(#[trigger] pieces[i]) && starts_at(pieces, i) < at
            ==> starts_at(pieces, i) <= start
}

/// Among some pieces, `end` is where the first word ends that ends behind `at`.
pub open spec fn is_word_end_after(pieces: Seq<Seq<char>>, at: int, end: int) -> bool {
    &&& at < end
    &&& exists|i: int|
        0 <= i < pieces.len() && is_word(#[trigger] pieces[i]) && starts_at(pieces, i + 1) == end
    &&& forall|i: int|
        0 <= i < pieces.len() && is_word(#[trigger] pieces[i]) && starts_at(pieces, i + 1) > at
            ==> end <= starts_at(pieces, i + 1)
}

#[verifier::spinoff_prover]
proof fn lemma_words_before(pieces: Seq<Seq<char>>, at: int, n: int)
    requires
        0 <= n <= pieces.len(),
    ensures
        match word_before(pieces, at, n) {
            Some(start) => {
                &&& start < at
                &&& exists|i: int|
                    0 <= i < n && is_word(#[trigger] pieces[i]) && starts_at(pieces, i) == start
                &&& forall|i: int|
                    0 <= i < n && is_word(#[trigger] pieces[i]) && starts_at(pieces, i) < at
                        ==> starts_at(pieces, i) <= start
            },
            None => forall|i: int|
                0 <= i < n && is_word(#[trigger] pieces[i]) ==> starts_at(pieces, i) >= at,
        },
    decreases n,
{
    if n > 0 {
        lemma_words_before(pieces, at, n - 1);
        graphemes::lemma_starts_behind_text(pieces, n - 1);
        if is_word(pieces[n - 1]) && starts_at(pieces, n - 1) < at {
            let k = choose|k: int|
                0 <= k < pieces[n - 1].len() && !is_whitespace(#[trigger] pieces[n - 1][k]);
            assert(!blank(pieces[n - 1]));
            assert forall|i: int|
                0 <= i < n && is_word(#[trigger] pieces[i]) && starts_at(
                    pieces,
                    i,
                ) < at implies starts_at(pieces, i) <= starts_at(pieces, n - 1) by {
                graphemes::lemma_starts_behind_text(pieces, i);
                graphemes::lemma_bytes_before_ascend(pieces, i, n - 1);
            }
        }
    }
}

#[verifier::spinoff_prover]
proof fn lemma_words_after(pieces: Seq<Seq<char>>, at: int, n: int)
    requires
        0 <= n <= pieces.len(),
    ensures
        match word_after(pieces, at, n) {
            Some(end) => {
                &&& at < end
                &&& exists|i: int|
                    n <= i < pieces.len() && is_word(#[trigger] pieces[i]) && starts_at(
                        pieces,
                        i + 1,
                    ) == end
                &&& forall|i: int|
                    n <= i < pieces.len() && is_word(#[trigger] pieces[i]) && starts_at(
                        pieces,
                        i + 1,
                    ) > at ==> end <= starts_at(pieces, i + 1)
            },
            None => forall|i: int|
                n <= i < pieces.len() && is_word(#[trigger] pieces[i]) ==> starts_at(pieces, i + 1)
                    <= at,
        },
    decreases pieces.len() - n,
{
    if n < pieces.len() {
        lemma_words_after(pieces, at, n + 1);
        graphemes::lemma_starts_behind_text(pieces, n + 1);
        if is_word(pieces[n]) && starts_at(pieces, n + 1) > at {
            let k = choose|k: int|
                0 <= k < pieces[n].len() && !is_whitespace(#[trigger] pieces[n][k]);
            assert(!blank(pieces[n]));
            assert forall|i: int|
                n <= i < pieces.len() && is_word(#[trigger] pieces[i]) && starts_at(
                    pieces,
                    i + 1,
                ) > at implies starts_at(pieces, n + 1) <= starts_at(pieces, i + 1) by {
                graphemes::lemma_starts_behind_text(pieces, i + 1);
                graphemes::lemma_bytes_before_ascend(pieces, n + 1, i + 1);
            }
        }
    }
}

/// Moving left by a word skips none: where a word of the line starts before the cursor, the
/// motion lands on the start of such a word, and no word starts strictly between it and the
/// cursor. Where none does, it lands on the start of the line, or at the end of the line
/// before; at the very beginning of the text it stays.
pub proof fn lemma_word_left_skips_none(view: ViewState, c: Cursor)
    requires
        c.line < view.lines.len(),
        byte_len(
            graphemes::joined(graphemes::word_pieces(view.lines[c.line as int])),
        ) <= usize::MAX,
        c.line > 0 ==> byte_len(view.lines[c.line - 1]) <= usize::MAX,
    ensures
        ({
            let pieces = graphemes::word_pieces(view.lines[c.line as int]);
            let to = view.word_left(c);
            if exists|i: int|
                0 <= i < pieces.len() && is_word(#[trigger] pieces[i]) && starts_at(pieces, i)
                    < c.index {
                &&& to.line == c.line
                &&& to.affinity == Affinity::After
                &&& is_word_start_before(pieces, c.index as int, to.index as int)
            } else if c.index > 0 {
                to.line == c.line && to.index == 0 && to.affinity == Affinity::After
            } else if c.line > 0 {
                to.line == c.line - 1 && to.index == byte_len(view.lines[c.line - 1])
                    && to.affinity == Affinity::After
            } else {
                to == c
            }
        }),
{
    let pieces = graphemes::word_pieces(view.lines[c.line as int]);
    lemma_words_before(pieces, c.index as int, pieces.len() as int);
    graphemes::lemma_bytes_joined(pieces);
    if let Some(start) = word_before(pieces, c.index as int, pieces.len() as int) {
        let i = choose|i: int|
            0 <= i < pieces.len() && is_word(#[trigger] pieces[i]) && starts_at(pieces, i)
                == start;
        graphemes::lemma_starts_behind_text(pieces, i);
        graphemes::lemma_bytes_before_ascend(pieces, i, pieces.len() as int);
        assert(is_word(pieces[i]) && starts_at(pieces, i) < c.index);
    }
}

/// Moving right by a word skips none: where a word of the line ends behind the cursor, the
/// motion lands on the end of such a word, and no word ends strictly between the cursor and
/// it. Where none does, it lands on the end of the line, or at the start of the next line;
/// at the very end of the text it stays.
pub proof fn lemma_word_right_skips_none(view: ViewState, c: Cursor)
    requires
        c.line < view.lines.len() <= usize::MAX,
        byte_len(
            graphemes::joined(graphemes::word_pieces(view.lines[c.line as int])),
        ) <= usize::MAX,
        byte_len(view.lines[c.line as int]) <= usize::MAX,
    ensures
        ({
            let text = view.lines[c.line as int];
            let pieces = graphemes::word_pieces(text);
            let to = view.word_right(c);
            if exists|i: int|
                0 <= i < pieces.len() && is_word(#[trigger] pieces[i]) && starts_at(pieces, i + 1)
                    > c.index {
                &&& to.line == c.line
                &&& to.affinity == Affinity::Before
                &&& is_word_end_after(pieces, c.index as int, to.index as int)
            } else if c.index < byte_len(text) {
                to.line == c.line && to.index == byte_len(text) && to.affinity == Affinity::Before
            } else if c.line + 1 < view.lines.len() {
                to.line == c.line + 1 && to.index == 0 && to.affinity == Affinity::Before
            } else {
                to == c
            }
        }),
{
    let pieces = graphemes::word_pieces(view.lines[c.line as int]);
    lemma_words_after(pieces, c.index as int, 0);
    graphemes::lemma_bytes_joined(pieces);
    if let Some(end) = word_after(pieces, c.index as int, 0) {
        let i = choose|i: int|
            0 <= i < pieces.len() && is_word(#[trigger] pieces[i]) && starts_at(pieces, i + 1)
                == end;
        graphemes::lemma_starts_behind_text(pieces, i + 1);
        graphemes::lemma_bytes_before_ascend(pieces, i + 1, pieces.len() as int);
        assert(is_word(pieces[i]) && starts_at(pieces, i + 1) > c.index);
    }
}

#[verifier::spinoff_prover]
proof fn lemma_starts_before(pieces: Seq<Seq<char>>, at: int, n: int)
    requires
        0 <= n <= pieces.len(),
        0 < at,
    ensures
        0 <= start_before(pieces, at, n) < at,
        n > 0 ==> exists|i: int|
            0 <= i < n && #[trigger] starts_at(pieces, i) == start_before(pieces, at, n),
        n == 0 ==> start_before(pieces, at, n) == 0,
        forall|i: int|
            0 <= i < n && #[trigger] starts_at(pieces, i) < at ==> starts_at(pieces, i)
                <= start_before(pieces, at, n),
    decreases n,
{
    if n > 0 {
        lemma_starts_before(pieces, at, n - 1);
        graphemes::lemma_starts_behind_text(pieces, n - 1);
        graphemes::lemma_bytes_before_ascend(pieces, n - 1, n - 1);
        if starts_at(pieces, n - 1) < at {
            assert forall|i: int| 0 <= i < n && #[trigger] starts_at(
                pieces,
                i,
            ) < at implies starts_at(pieces, i) <= starts_at(pieces, n - 1) by {
                graphemes::lemma_starts_behind_text(pieces, i);
                graphemes::lemma_bytes_before_ascend(pieces, i, n - 1);
            }
        } else if n == 1 {
            assert(graphemes::bytes_before(pieces, 0) == 0);
        }
    }
}

/// Moving left inside a line skips no grapheme cluster: it lands where one starts, before
/// the cursor, and none starts strictly between the two.
pub proof fn lemma_left_skips_none(view: ViewState, c: Cursor)
    requires
        c.line < view.lines.len(),
        0 < c.index,
    ensures
        ({
            let clusters = graphemes::grapheme_clusters(view.lines[c.line as int]);
            let to = view.left(c);
            &&& to.line == c.line
            &&& to.affinity == Affinity::After
            &&& to.index < c.index
            &&& clusters.len() > 0 ==> exists|i: int|
                0 <= i < clusters.len() && #[trigger] starts_at(clusters, i) == to.index
            &&& forall|i: int|
                0 <= i < clusters.len() && #[trigger] starts_at(clusters, i) < c.index
                    ==> starts_at(clusters, i) <= to.index
        }),
{
    let clusters = graphemes::grapheme_clusters(view.lines[c.line as int]);
    lemma_starts_before(clusters, c.index as int, clusters.len() as int);
}

/// Moving right inside a line passes the first grapheme cluster of the text behind the
/// cursor, all of it and no more; inside a character the cursor stays.
pub proof fn lemma_right_passes_one(view: ViewState, c: Cursor)
    requires
        c.line < view.lines.len(),
        c.index < byte_len(view.lines[c.line as int]) <= usize::MAX,
    ensures
        ({
            let bytes = encode_utf8(view.lines[c.line as int]);
            let rest = decode_utf8(bytes.skip(c.index as int));
            let clusters = graphemes::grapheme_clusters(rest);
            let to = view.right(c);
            &&& !is_char_boundary(bytes, c.index as int) ==> to == c
            &&& is_char_boundary(bytes, c.index as int) && clusters.len() > 0 && c.index
                + byte_len(clusters[0]) <= bytes.len() ==> {
                &&& to.line == c.line
                &&& to.affinity == Affinity::Before
                &&& to.index - c.index == byte_len(clusters[0])
            }
            &&& is_char_boundary(bytes, c.index as int) && clusters.len() == 0 ==> to.line
                == c.line && to.index == bytes.len()
        }),
{
    let bytes = encode_utf8(view.lines[c.line as int]);
    assert(bytes.skip(c.index as int) =~= bytes.subrange(c.index as int, bytes.len() as int));
}

/// The rows `first..end` are the rows of a line: they all belong to it, no row before them
/// does, and the row behind them does not.
pub open spec fn is_block(rows: Seq<RowState>, line: usize, first: int, end: int) -> bool {
    &&& 0 <= first < end <= rows.len()
    &&& forall|i: int| 0 <= i < first ==> (#[trigger] rows[i]).line != line
    &&& forall|i: int| first <= i < end ==> (#[trigger] rows[i]).line == line
    &&& end < rows.len() ==> rows[end].line != line
}

/// A cursor is on a row of its line: the first one that covers it, or at a soft wrap, where
/// its affinity is with the text behind it, the second one; the last row of the line where
/// none covers it. It is on none exactly where its line has no row.
#[verifier::spinoff_prover]
pub proof fn lemma_row_choice(view: ViewState, c: Cursor, first: int, end: int)
    ensures
        view.row_of(c) is None <==> forall|i: int|
            0 <= i < view.rows.len() ==> (#[trigger] view.rows[i]).line != c.line,
        is_block(view.rows, c.line, first, end) ==> (view.row_of(c) matches Some(row) && {
            &&& first <= row < end
            &&& view.rows[row].covers(c.index) && c.affinity == Affinity::Before ==> forall|i: int|
                first <= i < row ==> !(#[trigger] view.rows[i]).covers(c.index)
            &&& view.rows[row].covers(c.index) && c.affinity == Affinity::After ==> {
                ||| exists|hit: int|
                    {
                        &&& first <= hit < row
                        &&& #[trigger] view.rows[hit].covers(c.index)
                        &&& forall|i: int|
                            first <= i < row && i != hit ==> !(#[trigger] view.rows[i]).covers(
                                c.index,
                            )
                    }
                ||| forall|i: int|
                    first <= i < end && i != row ==> !(#[trigger] view.rows[i]).covers(c.index)
            }
            &&& !view.rows[row].covers(c.index) ==> row == end - 1 && forall|i: int|
                first <= i < end ==> !(#[trigger] view.rows[i]).covers(c.index)
        }),
{
    let rows = view.rows;
    lemma_first_of_line(rows, c.line, 0);
    let f = first_of_line(rows, c.line, 0);
    if f < rows.len() {
        assert(rows[f].line == c.line);
        lemma_end_of_line(rows, c.line, f);
        lemma_end_stops(rows, c.line, f);
        let e = end_of_line(rows, c.line, f);
        if is_block(rows, c.line, first, end) {
            assert(f == first) by {
                assert(rows[first].line == c.line);
                if f < first {
                    assert(rows[f].line != c.line);
                }
            }
            assert(e == end) by {
                if e < end {
                    assert(rows[e].line == c.line);
                } else if end < e {
                    assert(rows[end].line == c.line);
                }
            }
        }
        lemma_first_covering(rows, c.index, f, e);
        let hit = first_covering(rows, c.index, f, e);
        if hit < e {
            lemma_first_covering(rows, c.index, hit + 1, e);
        }
    } else if is_block(rows, c.line, first, end) {
        assert(rows[first].line == c.line);
    }
}

proof fn lemma_end_stops(rows: Seq<RowState>, line: usize, i: int)
    requires
        0 <= i <= rows.len(),
    ensures
        end_of_line(rows, line, i) < rows.len() ==> rows[end_of_line(rows, line, i)].line != line,
    decreases rows.len() - i,
{
    if i < rows.len() && rows[i].line == line {
        lemma_end_stops(rows, line, i + 1);
    }
}

/// A match that is right: both ends on one line, as far apart as the needle is long, which
/// stands there.
pub open spec fn is_match(view: ViewState, needle: Seq<u8>, found: (Cursor, Cursor)) -> bool {
    let (from, to) = found;
    &&& from.line < view.lines.len()
    &&& to.line == from.line
    &&& to.index == from.index + needle.len()
    &&& from.affinity == Affinity::Before
    &&& to.affinity == Affinity::Before
    &&& search::occurs_at(encode_utf8(view.lines[from.line as int]), needle, from.index as int)
}

/// The match covers a byte of a line.
pub open spec fn match_covers(found: (Cursor, Cursor), line: int, at: int) -> bool {
    found.0.line == line && found.0.index <= at < found.1.index
}

/// What is found of a needle are its occurrences, by line and from left to right, without
/// overlap; and no occurrence is missed but those that overlap one that is found.
#[verifier::spinoff_prover]
pub proof fn lemma_found(view: ViewState, needle: Seq<u8>, n: int)
    requires
        0 < needle.len(),
        0 <= n <= view.lines.len() <= usize::MAX,
        forall|l: int|
            0 <= l < view.lines.len() ==> byte_len(#[trigger] view.lines[l]) <= usize::MAX,
    ensures
        ({
            let found = view.found_in(needle, n);
            &&& forall|k: int|
                0 <= k < found.len() ==> is_match(view, needle, #[trigger] found[k])
                    && found[k].0.line < n
            &&& forall|j: int, k: int|
                0 <= j < k < found.len() ==> (#[trigger] found[j]).0.line < (
                #[trigger] found[k]).0.line || found[j].0.line == found[k].0.line
                    && found[j].1.index <= found[k].0.index
            &&& forall|l: int, at: int|
                0 <= l < n && #[trigger] search::occurs_at(encode_utf8(view.lines[l]), needle, at)
                    ==> exists|k: int|
                    0 <= k < found.len() && match_covers(#[trigger] found[k], l, at)
        }),
    decreases n,
{
    if n > 0 {
        lemma_found(view, needle, n - 1);
        let before = view.found_in(needle, n - 1);
        let hay = encode_utf8(view.lines[n - 1]);
        assert(byte_len(view.lines[n - 1]) <= usize::MAX);
        let at = search::matches_from(hay, needle, 0);
        search::lemma_matches(hay, needle, 0);
        let here = matches_in_line((n - 1) as usize, at, needle.len() as int);
        let found = view.found_in(needle, n);
        assert(found == before + here);
        assert forall|k: int| 0 <= k < here.len() implies is_match(
            view,
            needle,
            #[trigger] here[k],
        ) && here[k].0.line == n - 1 && here[k].0.index == at[k] && here[k].1.index == at[k]
            + needle.len() by {
            assert(search::occurs_at(hay, needle, at[k]));
            assert(0 <= at[k] && at[k] + needle.len() <= hay.len()) by {
                reveal(search::occurs_at);
            }
        }
        assert forall|k: int| 0 <= k < found.len() implies is_match(
            view,
            needle,
            #[trigger] found[k],
        ) && found[k].0.line < n by {
            if k >= before.len() {
                assert(found[k] == here[k - before.len()]);
            } else {
                assert(found[k] == before[k]);
            }
        }
        assert forall|j: int, k: int| 0 <= j < k < found.len() implies (
        #[trigger] found[j]).0.line < (#[trigger] found[k]).0.line || found[j].0.line
            == found[k].0.line && found[j].1.index <= found[k].0.index by {
            if j >= before.len() {
                assert(found[j] == here[j - before.len()]);
                assert(found[k] == here[k - before.len()]);
                assert(at[j - before.len()] + needle.len() <= at[k - before.len()]);
            } else {
                assert(found[j] == before[j]);
                if k >= before.len() {
                    assert(found[k] == here[k - before.len()]);
                } else {
                    assert(found[k] == before[k]);
                }
            }
        }
        assert forall|l: int, p: int|
            0 <= l < n && #[trigger] search::occurs_at(
                encode_utf8(view.lines[l]),
                needle,
                p,
            ) implies exists|k: int|
            0 <= k < found.len() && match_covers(#[trigger] found[k], l, p) by {
            if l == n - 1 {
                assert(0 <= p) by {
                    reveal(search::occurs_at);
                }
                assert(search::covered(at, needle.len() as int, p));
                let i = choose|i: int|
                    0 <= i < at.len() && #[trigger] at[i] <= p < at[i] + needle.len();
                assert(found[before.len() + i] == here[i]);
                assert(match_covers(found[before.len() + i], l, p));
            } else {
                let k = choose|k: int|
                    0 <= k < before.len() && match_covers(#[trigger] before[k], l, p);
                assert(found[k] == before[k]);
                assert(match_covers(found[k], l, p));
            }
        }
    }
}

/// The caret of an index is in the first glyph whose bytes it is among or at an edge of, as
/// far into it as there are grapheme clusters in the text from the glyph's start up to the
/// index; where no glyph has it there is no caret.
#[verifier::spinoff_prover]
pub proof fn lemma_caret(glyphs: Seq<GlyphSpan>, bytes: Seq<u8>, index: usize, i: int)
    requires
        0 <= i <= glyphs.len() <= usize::MAX,
        forall|k: int| 0 <= k < glyphs.len() ==> covers_text(#[trigger] glyphs[k], bytes),
    ensures
        match caret_in(glyphs, bytes, index, i) {
            None => forall|k: int|
                i <= k < glyphs.len() ==> !((#[trigger] glyphs[k]).start <= index
                    <= glyphs[k].end),
            Some(caret) => {
                let g = glyphs[caret.glyph as int];
                let text = bytes.subrange(g.start as int, g.end as int);
                let whole = graphemes::grapheme_clusters(decode_utf8(text)).len();
                let part = graphemes::grapheme_clusters(
                    decode_utf8(bytes.subrange(g.start as int, index as int)),
                ).len();
                &&& i <= caret.glyph < glyphs.len()
                &&& g.start <= index <= g.end
                &&& forall|k: int|
                    i <= k < caret.glyph ==> !((#[trigger] glyphs[k]).start <= index
                        <= glyphs[k].end)
                &&& whole <= usize::MAX ==> caret.total == whole
                &&& whole > 0 && part <= usize::MAX && is_char_boundary(text, index - g.start)
                    ==> caret.before == part
                &&& whole == 0 || !is_char_boundary(text, index - g.start) ==> caret.before == 0
            },
        },
    decreases glyphs.len() - i,
{
    if i < glyphs.len() {
        let g = glyphs[i];
        assert(covers_text(g, bytes));
        if g.start <= index <= g.end {
            assert(bytes.subrange(g.start as int, g.end as int).subrange(0, index - g.start)
                =~= bytes.subrange(g.start as int, index as int));
        } else {
            lemma_caret(glyphs, bytes, index, i + 1);
        }
    }
}

/// Cursors are ordered as positions of the text are: the order is total, one of two is at
/// most the other, and both are only where they are the same.
pub proof fn lemma_cursor_order(a: Cursor, b: Cursor, c: Cursor)
    ensures
        a.at_most(b) || b.at_most(a),
        a.at_most(b) && b.at_most(a) ==> a == b,
        a.at_most(b) && b.at_most(c) ==> a.at_most(c),
        a.line < b.line ==> a.at_most(b) && !b.at_most(a),
        a.line == b.line && a.index < b.index ==> a.at_most(b) && !b.at_most(a),
        a.line == b.line && a.index == b.index && a.affinity == Affinity::Before && b.affinity
            == Affinity::After ==> a.at_most(b) && !b.at_most(a),
{
}

/// Where a cursor lands on a laid-out row.
#[derive(Clone, Copy, Debug, PartialEq, Eq, Structural)]
pub struct RowHit {
    /// The row.
    pub row: usize,
    /// The first and the last byte that the row covers.
    pub start: usize,
    pub end: usize,
}

/// How far into a glyph a caret is: behind `before` of its `total` grapheme clusters.
#[derive(Clone, Copy, Debug, PartialEq, Eq, Structural)]
pub struct Caret {
    pub glyph: usize,
    pub before: usize,
    pub total: usize,
}

/// A shaped text, as far as motion reads it.
pub struct TextView {
    lines: Vec<String>,
    rows: Vec<VisualRow>,
}

impl View for TextView {
    type V = ViewState;

    closed spec fn view(&self) -> ViewState {
        ViewState {
            lines: graphemes::texts(self.lines@),
            rows: Seq::new(
                self.rows@.len(),
                |i: int| RowState { line: self.rows@[i].line, glyphs: self.rows@[i].glyphs@ },
            ),
        }
    }
}

impl TextView {
    /// A view of some lines, laid out in some rows.
    pub fn new(lines: Vec<String>, rows: Vec<VisualRow>) -> (view: TextView)
        ensures
            view@.lines == graphemes::texts(lines@),
            view@.rows.len() == rows@.len(),
            forall|i: int|
                0 <= i < rows@.len() ==> #[trigger] view@.rows[i] == (RowState {
                    line: rows@[i].line,
                    glyphs: rows@[i].glyphs@,
                }),
    {
        TextView { lines, rows }
    }

    /// One grapheme cluster left, crossing into the line before at a line start. The
    /// cursor stays at the very beginning of the text.
    pub fn move_left(&self, c: Cursor) -> (moved: Cursor)
        ensures
            moved == self@.left(c),
            c.line < self@.lines.len() && c.index > 0 ==> moved.line == c.line && moved.index
                < c.index,
    {
        if c.line >= self.lines.len() {
            return c;
        }
        let text: &str = self.lines[c.line].as_str();
        if c.index > 0 {
            let clusters: Vec<String> = graphemes::graphemes(text);
            let _total: usize = text.as_bytes().len();
            proof {
                graphemes::lemma_bytes_joined(graphemes::texts(clusters@));
            }
            let index: usize = cluster_before(&clusters, c.index);
            proof {
                lemma_start_before(
                    graphemes::texts(clusters@),
                    c.index as int,
                    clusters@.len() as int,
                );
            }
            Cursor::new_with_affinity(c.line, index, Affinity::After)
        } else if c.line > 0 {
            let end: usize = self.lines[c.line - 1].as_str().as_bytes().len();
            Cursor::new_with_affinity(c.line - 1, end, Affinity::After)
        } else {
            c
        }
    }

    /// One grapheme cluster right, crossing into the next line at a line end. The cursor
    /// stays at the very end of the text.
    pub fn move_right(&self, c: Cursor) -> (moved: Cursor)
        ensures
            moved == self@.right(c),
            c.line < self@.lines.len() && c.index < byte_len(self@.lines[c.line as int])
                && is_char_boundary(encode_utf8(self@.lines[c.line as int]), c.index as int)
                ==> moved.line == c.line && c.index < moved.index <= byte_len(
                self@.lines[c.line as int],
            ),
    {
        if c.line >= self.lines.len() {
            return c;
        }
        let text: &str = self.lines[c.line].as_str();
        let total: usize = text.as_bytes().len();
        if c.index < total {
            if !text.is_char_boundary(c.index) {
                return c;
            }
            proof {
                encode_utf8_valid_utf8(text@);
                is_char_boundary_start_end_of_seq(encode_utf8(text@));
            }
            let rest: &str = text::slice(text, c.index, total);
            let clusters: Vec<String> = graphemes::graphemes(rest);
            proof {
                encode_utf8_decode_utf8(rest@);
                let pieces = graphemes::texts(clusters@);
                graphemes::lemma_bytes_joined(pieces);
                if clusters@.len() > 0 {
                    graphemes::lemma_bytes_before_ascend(pieces, 1, pieces.len() as int);
                    reveal_with_fuel(graphemes::bytes_before, 2);
                    text::lemma_no_more_chars_than_bytes(pieces[0]);
                    assert(pieces[0].len() > 0);
                }
            }
            let index: usize = cluster_after(&clusters, c.index, total);
            Cursor::new_with_affinity(c.line, index, Affinity::Before)
        } else if c.line < self.lines.len() - 1 {
            Cursor::new_with_affinity(c.line + 1, 0, Affinity::Before)
        } else {
            c
        }
    }

    /// To the start of the word left of the cursor, skipping white space, crossing into
    /// the line before if needed.
    pub fn move_word_left(&self, c: Cursor) -> (moved: Cursor)
        ensures
            moved == self@.word_left(c),
            c.line < self@.lines.len() && c.index > 0 ==> moved.line == c.line && moved.index
                < c.index,
    {
        if c.line >= self.lines.len() {
            return c;
        }
        let text: &str = self.lines[c.line].as_str();
        let pieces: Vec<String> = graphemes::word_bounds(text);
        let _total: usize = text.as_bytes().len();
        proof {
            graphemes::lemma_bytes_joined(graphemes::texts(pieces@));
            lemma_word_before(graphemes::texts(pieces@), c.index as int, pieces@.len() as int);
        }
        match word_start_before(&pieces, c.index) {
            Some(index) => Cursor::new_with_affinity(c.line, index, Affinity::After),
            None => {
                if c.index > 0 {
                    Cursor::new_with_affinity(c.line, 0, Affinity::After)
                } else if c.line > 0 {
                    let end: usize = self.lines[c.line - 1].as_str().as_bytes().len();
                    Cursor::new_with_affinity(c.line - 1, end, Affinity::After)
                } else {
                    c
                }
            },
        }
    }

    /// To the end of the word right of the cursor, crossing into the next line if needed.
    pub fn move_word_right(&self, c: Cursor) -> (moved: Cursor)
        ensures
            moved == self@.word_right(c),
            c.line < self@.lines.len() && c.index < byte_len(self@.lines[c.line as int])
                ==> moved.line == c.line && c.index < moved.index <= byte_len(
                self@.lines[c.line as int],
            ),
    {
        if c.line >= self.lines.len() {
            return c;
        }
        let text: &str = self.lines[c.line].as_str();
        let pieces: Vec<String> = graphemes::word_bounds(text);
        let total: usize = text.as_bytes().len();
        proof {
            graphemes::lemma_bytes_joined(graphemes::texts(pieces@));
            lemma_word_after(graphemes::texts(pieces@), c.index as int, 0);
        }
        match word_end_after(&pieces, c.index) {
            Some(index) => Cursor::new_with_affinity(c.line, index, Affinity::Before),
            None => {
                if c.index < total {
                    Cursor::new_with_affinity(c.line, total, Affinity::Before)
                } else if c.line < self.lines.len() - 1 {
                    Cursor::new_with_affinity(c.line + 1, 0, Affinity::Before)
                } else {
                    c
                }
            },
        }
    }

    fn rows_of(&self, line: usize) -> (range: (usize, usize))
        ensures
            range.0 == first_of_line(self@.rows, line, 0),
            range.1 == end_of_line(self@.rows, line, range.0 as int),
            range.0 <= range.1 <= self@.rows.len(),
    {
        let mut first: usize = 0;
        while first < self.rows.len() && self.rows[first].line != line
            invariant
                first <= self.rows@.len(),
                first_of_line(self@.rows, line, first as int) == first_of_line(
                    self@.rows,
                    line,
                    0,
                ),
            decreases self.rows@.len() - first,
        {
            assert(self@.rows[first as int].line != line);
            first = first + 1;
        }
        proof {
            if first < self.rows@.len() {
                assert(self@.rows[first as int].line == line);
            }
        }
        let mut end: usize = first;
        while end < self.rows.len() && self.rows[end].line == line
            invariant
                first <= end <= self.rows@.len(),
                end_of_line(self@.rows, line, end as int) == end_of_line(
                    self@.rows,
                    line,
                    first as int,
                ),
            decreases self.rows@.len() - end,
        {
            assert(self@.rows[end as int].line == line);
            end = end + 1;
        }
        proof {
            if end < self.rows@.len() {
                assert(self@.rows[end as int].line != line);
            }
        }
        (first, end)
    }

    fn span_at(&self, row: usize) -> (span: GlyphSpan)
        requires
            row < self@.rows.len(),
        ensures
            span == self@.rows[row as int].span(),
    {
        match run_span(&self.rows[row].glyphs) {
            Some(span) => span,
            None => GlyphSpan { start: 0, end: 0 },
        }
    }

    fn covering(&self, index: usize, from: usize, end: usize) -> (row: usize)
        requires
            from <= end <= self@.rows.len(),
        ensures
            row == first_covering(self@.rows, index, from as int, end as int),
            row <= end,
    {
        let mut row: usize = from;
        while row < end
            invariant
                from <= row <= end <= self@.rows.len(),
                first_covering(self@.rows, index, row as int, end as int) == first_covering(
                    self@.rows,
                    index,
                    from as int,
                    end as int,
                ),
            decreases end - row,
        {
            let span: GlyphSpan = self.span_at(row);
            if span.start <= index && index <= span.end {
                return row;
            }
            row = row + 1;
        }
        row
    }

    /// The visual row a cursor is on.
    ///
    /// At a soft wrap the same byte belongs to two rows, and the cursor's affinity decides.
    pub fn row_for_cursor(&self, c: Cursor) -> (hit: Option<RowHit>)
        ensures
            match self@.row_of(c) {
                None => hit is None,
                Some(row) => 0 <= row < self@.rows.len() && hit == Some(
                    RowHit {
                        row: row as usize,
                        start: self@.rows[row].span().start,
                        end: self@.rows[row].span().end,
                    },
                ),
            },
    {
        let (first, end) = self.rows_of(c.line);
        proof {
            lemma_row_of(self@, c);
        }
        if first == self.rows.len() {
            return None;
        }
        let hit: usize = self.covering(c.index, first, end);
        let mut row: usize = hit;
        if hit == end {
            proof {
                lemma_first_of_line(self@.rows, c.line, 0);
                lemma_end_of_line(self@.rows, c.line, first as int);
            }
            row = end - 1;
        } else if c.affinity == Affinity::After {
            let next: usize = self.covering(c.index, hit + 1, end);
            if next < end {
                row = next;
            }
        }
        let span: GlyphSpan = self.span_at(row);
        Some(RowHit { row, start: span.start, end: span.end })
    }

    /// The row above a cursor's, nothing on the first one.
    pub fn row_above(&self, c: Cursor) -> (row: Option<usize>)
        ensures
            match self@.row_of(c) {
                Some(at) if at > 0 => row == Some((at - 1) as usize) && at - 1 < self@.rows.len(),
                _ => row is None,
            },
    {
        let _count: usize = self.rows.len();
        match self.row_for_cursor(c) {
            Some(hit) => if hit.row > 0 {
                Some(hit.row - 1)
            } else {
                None
            },
            None => None,
        }
    }

    /// The row below a cursor's, nothing on the last one.
    pub fn row_below(&self, c: Cursor) -> (row: Option<usize>)
        ensures
            match self@.row_of(c) {
                Some(at) if at + 1 < self@.rows.len() => row == Some((at + 1) as usize),
                _ => row is None,
            },
    {
        match self.row_for_cursor(c) {
            Some(hit) => if hit.row < self.rows.len() - 1 {
                Some(hit.row + 1)
            } else {
                None
            },
            None => None,
        }
    }

    /// Whether a row's line is among those that two cursors, in any order, reach from and
    /// to. A row of any other line has no part in the selection between them.
    pub fn in_selection(&self, row: usize, a: Cursor, b: Cursor) -> (yes: bool)
        requires
            row < self@.rows.len(),
        ensures
            yes == {
                let line = self@.rows[row as int].line;
                a.line <= line <= b.line || b.line <= line <= a.line
            },
    {
        let (start, end) = ordered(a, b);
        let line: usize = self.rows[row].line;
        start.line <= line && line <= end.line
    }

    /// The start of the cursor's visual row: the row's, not the line's, on wrapped text.
    pub fn line_start(&self, c: Cursor) -> (moved: Cursor)
        ensures
            moved == (Cursor {
                line: c.line,
                index: match self@.row_of(c) {
                    Some(row) => self@.rows[row].span().start,
                    None => 0,
                },
                affinity: Affinity::After,
            }),
    {
        let index: usize = match self.row_for_cursor(c) {
            Some(hit) => hit.start,
            None => 0,
        };
        Cursor::new_with_affinity(c.line, index, Affinity::After)
    }

    /// The end of the cursor's visual row.
    pub fn line_end(&self, c: Cursor) -> (moved: Cursor)
        ensures
            moved == (Cursor {
                line: c.line,
                index: match self@.row_of(c) {
                    Some(row) => self@.rows[row].span().end,
                    None => if c.line < self@.lines.len() {
                        byte_len(self@.lines[c.line as int]) as usize
                    } else {
                        0
                    },
                },
                affinity: Affinity::Before,
            }),
    {
        let index: usize = match self.row_for_cursor(c) {
            Some(hit) => hit.end,
            None => if c.line < self.lines.len() {
                self.lines[c.line].as_str().as_bytes().len()
            } else {
                0
            },
        };
        Cursor::new_with_affinity(c.line, index, Affinity::Before)
    }

    /// The glyph of a row that the caret of an index is in, and how many of its grapheme
    /// clusters are before it. Nothing where the index is past every glyph.
    pub fn caret(&self, row: usize, index: usize) -> (caret: Option<Caret>)
        requires
            row < self@.rows.len(),
            self@.rows[row as int].line < self@.lines.len(),
            forall|i: int|
                0 <= i < self@.rows[row as int].glyphs.len() ==> covers_text(
                    #[trigger] self@.rows[row as int].glyphs[i],
                    encode_utf8(self@.lines[self@.rows[row as int].line as int]),
                ),
        ensures
            caret == caret_in(
                self@.rows[row as int].glyphs,
                encode_utf8(self@.lines[self@.rows[row as int].line as int]),
                index,
                0,
            ),
    {
        let ghost glyphs = self@.rows[row as int].glyphs;
        let text: &str = self.lines[self.rows[row].line].as_str();
        let count: usize = self.rows[row].glyphs.len();
        let mut i: usize = 0;
        while i < count
            invariant
                i <= count,
                row < self.rows@.len(),
                glyphs == self.rows@[row as int].glyphs@,
                glyphs == self@.rows[row as int].glyphs,
                text@ == self@.lines[self@.rows[row as int].line as int],
                count == glyphs.len(),
                forall|k: int|
                    0 <= k < glyphs.len() ==> covers_text(
                        #[trigger] glyphs[k],
                        encode_utf8(text@),
                    ),
                caret_in(glyphs, encode_utf8(text@), index, i as int) == caret_in(
                    glyphs,
                    encode_utf8(text@),
                    index,
                    0,
                ),
            decreases count - i,
        {
            let glyph: GlyphSpan = self.rows[row].glyphs[i];
            assert(covers_text(glyphs[i as int], encode_utf8(text@)));
            if glyph.start <= index && index <= glyph.end {
                let cluster: &str = text::slice(text, glyph.start, glyph.end);
                let offset: usize = index - glyph.start;
                proof {
                    encode_utf8_valid_utf8(cluster@);
                    encode_utf8_decode_utf8(cluster@);
                    is_char_boundary_start_end_of_seq(encode_utf8(cluster@));
                }
                let clusters: Vec<String> = graphemes::graphemes(cluster);
                let total: usize = clusters.len();
                assert(graphemes::texts(clusters@).len() == total);
                assert(cluster@ == decode_utf8(
                    encode_utf8(text@).subrange(glyph.start as int, glyph.end as int),
                ));
                let before: usize = if total == 0 || !cluster.is_char_boundary(offset) {
                    0
                } else {
                    let head: &str = text::slice(cluster, 0, offset);
                    proof {
                        encode_utf8_decode_utf8(head@);
                    }
                    let heads: Vec<String> = graphemes::graphemes(head);
                    assert(graphemes::texts(heads@).len() == heads@.len());
                    heads.len()
                };
                return Some(Caret { glyph: i, before, total });
            }
            i = i + 1;
        }
        None
    }

    /// The matches of a needle: its occurrences in each line, from the first line on.
    #[verifier::spinoff_prover]
    pub fn find_all(&self, needle: &str) -> (found: Vec<(Cursor, Cursor)>)
        ensures
            found@ == self@.found_in(encode_utf8(needle@), self@.lines.len() as int),
    {
        let mut found: Vec<(Cursor, Cursor)> = Vec::new();
        let pattern: &[u8] = needle.as_bytes();
        let n: usize = pattern.len();
        let mut line: usize = 0;
        while line < self.lines.len()
            invariant
                line <= self.lines@.len(),
                n == pattern@.len(),
                pattern@ == encode_utf8(needle@),
                found@ == self@.found_in(pattern@, line as int),
            decreases self.lines@.len() - line,
        {
            let hay: &[u8] = self.lines[line].as_str().as_bytes();
            let offsets: Vec<usize> = search::find_matches(hay, pattern);
            let ghost before = found@;
            let ghost at = search::matches_from(hay@, pattern@, 0);
            proof {
                if n > 0 {
                    search::lemma_matches(hay@, pattern@, 0);
                }
            }
            let total: usize = hay.len();
            let mut i: usize = 0;
            assert(found@ =~= before + matches_in_line(line, at.take(0), n as int));
            while i < offsets.len()
                invariant
                    i <= offsets@.len(),
                    n == pattern@.len(),
                    total == hay@.len(),
                    at == search::as_ints(offsets@),
                    n > 0 ==> search::all_occur(hay@, pattern@, 0, at),
                    n == 0 ==> offsets@.len() == 0,
                    found@ == before + matches_in_line(line, at.take(i as int), n as int),
                decreases offsets@.len() - i,
            {
                proof {
                    assert(at[i as int] == offsets@[i as int]);
                    assert(search::occurs_at(hay@, pattern@, at[i as int]));
                    reveal(search::occurs_at);
                }
                let start: Cursor = Cursor::new(line, offsets[i]);
                let end: Cursor = Cursor::new(line, offsets[i] + n);
                found.push((start, end));
                i = i + 1;
                assert(found@ =~= before + matches_in_line(line, at.take(i as int), n as int));
            }
            assert(at.take(i as int) =~= at);
            line = line + 1;
        }
        found
    }
}

proof fn lemma_start_before(pieces: Seq<Seq<char>>, at: int, n: int)
    requires
        0 < at,
        0 <= n <= pieces.len(),
    ensures
        0 <= start_before(pieces, at, n) < at,
    decreases n,
{
    if n > 0 {
        graphemes::lemma_bytes_before_ascend(pieces, n - 1, n - 1);
        lemma_start_before(pieces, at, n - 1);
    }
}

proof fn lemma_word_before(pieces: Seq<Seq<char>>, at: int, n: int)
    requires
        0 <= n <= pieces.len(),
    ensures
        word_before(pieces, at, n) matches Some(start) ==> start < at,
    decreases n,
{
    if n > 0 {
        lemma_word_before(pieces, at, n - 1);
    }
}

proof fn lemma_word_after(pieces: Seq<Seq<char>>, at: int, n: int)
    requires
        0 <= n <= pieces.len(),
    ensures
        word_after(pieces, at, n) matches Some(end) ==> at < end <= graphemes::bytes_before(
            pieces,
            pieces.len() as int,
        ),
    decreases pieces.len() - n,
{
    if n < pieces.len() {
        graphemes::lemma_bytes_before_ascend(pieces, n + 1, pieces.len() as int);
        lemma_word_after(pieces, at, n + 1);
    }
}

/// The glyph covers whole characters of the text.
pub open spec fn covers_text(glyph: GlyphSpan, bytes: Seq<u8>) -> bool {
    &&& glyph.start <= glyph.end <= bytes.len()
    &&& is_char_boundary(bytes, glyph.start as int)
    &&& is_char_boundary(bytes, glyph.end as int)
}

/// The caret of an index: the first glyph from `i` on that it is in or at an edge of, with
/// the grapheme clusters of the glyph's text, and of the part of it before the index. An
/// index inside a character is at the start of the glyph.
pub open spec fn caret_in(glyphs: Seq<GlyphSpan>, bytes: Seq<u8>, index: usize, i: int) -> Option<
    Caret,
>
    decreases glyphs.len() - i,
{
    if i >= glyphs.len() {
        None
    } else if glyphs[i].start <= index <= glyphs[i].end {
        let cluster = bytes.subrange(glyphs[i].start as int, glyphs[i].end as int);
        let offset = index - glyphs[i].start;
        let total = graphemes::grapheme_clusters(decode_utf8(cluster)).len();
        let before = if total == 0 || !is_char_boundary(cluster, offset) {
            0
        } else {
            graphemes::grapheme_clusters(decode_utf8(cluster.subrange(0, offset))).len()
        };
        Some(Caret { glyph: i as usize, before: before as usize, total: total as usize })
    } else {
        caret_in(glyphs, bytes, index, i + 1)
    }
}

/// White space among the ASCII characters is the blank and the characters from the tab to
/// the carriage return.
pub proof fn lemma_ascii_whitespace(c: char)
    requires
        (c as int) < 0x80,
    ensures
        is_whitespace(c) <==> c == ' ' || 9 <= c as int <= 13,
{
}

/// White space is the characters that Unicode lists: the controls that move to another
/// column or line, the blanks of every width, and the two separators.
pub proof fn lemma_whitespace_listed(c: char)
    ensures
        is_whitespace(c) <==> set![
            '\t', '\n', '\u{B}', '\u{C}', '\r', ' ', '\u{85}', '\u{A0}', '\u{1680}',
            '\u{2000}', '\u{2001}', '\u{2002}', '\u{2003}', '\u{2004}', '\u{2005}',
            '\u{2006}', '\u{2007}', '\u{2008}', '\u{2009}', '\u{200A}', '\u{2028}',
            '\u{2029}', '\u{202F}', '\u{205F}', '\u{3000}',
        ].contains(c),
{
}

/// A piece is blank exactly where it is no word.
pub proof fn lemma_blank_or_word(piece: Seq<char>)
    ensures
        blank(piece) <==> !is_word(piece),
{
    if !blank(piece) {
        let k = choose|k: int| 0 <= k < piece.len() && !is_whitespace(#[trigger] piece[k]);
        assert(!is_whitespace(piece[k]));
    }
}

/// Motion stops at the ends of the text, and leaves a cursor that is on no line.
pub proof fn lemma_motion_stops(view: ViewState, c: Cursor)
    ensures
        c.line >= view.lines.len() ==> view.left(c) == c && view.right(c) == c && view.word_left(c)
            == c && view.word_right(c) == c,
        c.line == 0 && c.index == 0 ==> view.left(c) == c,
        c.line + 1 == view.lines.len() && c.index >= byte_len(view.lines[c.line as int])
            ==> view.right(c) == c,
{
}

} // verus!
