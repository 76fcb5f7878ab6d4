//! Virtualized documents: a whole log in memory, of which only what shows is laid out.
//!
//! A [`Document`] owns the text and its line index, which an append extends. Lines are
//! grouped into chunks of [`CHUNK_LINES`] lines; only the chunks in and next to the viewport
//! are laid out, and chunks that drift further than [`RETAIN_CHUNKS`] away are dropped.
//! Which chunks those are is decided here. Laying a chunk out is the caller's work, and so
//! is adding up heights: heights and tops are held as bit patterns.
use crate::bits;
use crate::indexed;
use crate::indexed::IndexedText;
use crate::lines;
use crate::text;
use vstd::prelude::*;
use vstd::utf8::*;

verus! {

/// Lines per chunk.
pub const CHUNK_LINES: usize = 128;

/// Chunks laid out on each side of the viewport.
pub const WINDOW_CHUNKS: usize = 1;

/// Chunks kept on each side of the viewport. Anything further out is dropped.
pub const RETAIN_CHUNKS: usize = 3;

/// Hard cap on the chunks that are kept, so that a viewport taller than the document cannot
/// hold on to all of it.
pub const MAX_RESIDENT: usize = 16;

/// A position in the document: a line, and a byte offset within that line.
#[derive(Clone, Copy, Debug, Default, PartialEq, Eq, PartialOrd, Ord, Structural)]
pub struct DocCursor {
    pub line: usize,
    pub byte: usize,
}

impl DocCursor {
    /// The cursor at a byte of a line.
    pub fn new(line: usize, byte: usize) -> (cursor: DocCursor)
        ensures
            cursor == (DocCursor { line, byte }),
    {
        DocCursor { line, byte }
    }

    /// The cursor is at another, or before it.
    pub open spec fn at_most(self, other: DocCursor) -> bool {
        self.line < other.line || self.line == other.line && self.byte <= other.byte
    }
}

/// Two cursors, the first one first.
pub fn order(a: DocCursor, b: DocCursor) -> (ordered: (DocCursor, DocCursor))
    ensures
        ordered == (if a.at_most(b) {
            (a, b)
        } else {
            (b, a)
        }),
        ordered.0.at_most(ordered.1),
{
    if a.line < b.line || a.line == b.line && a.byte <= b.byte {
        (a, b)
    } else {
        (b, a)
    }
}

/// The chunk a line belongs to.
pub fn chunk_of_line(line: usize) -> (chunk: usize)
    ensures
        chunk == line as int / CHUNK_LINES as int,
{
    line / CHUNK_LINES
}

/// What the layout window has been doing.
#[derive(Clone, Copy, Debug, Default, PartialEq, Eq, Structural)]
pub struct DocStats {
    /// Chunks that are laid out.
    pub resident_chunks: usize,
    /// Chunks laid out the last time the viewport was set.
    pub shaped_last: usize,
    /// Chunks laid out since the document was built.
    pub shaped_total: usize,
    /// Chunks dropped since the document was built.
    pub evicted_total: usize,
    /// Lines that were ever laid out.
    pub lines_shaped_total: usize,
}

/// The byte offset of a cursor: a line past the end is the last line, and a byte past the
/// line's end is its end.
pub open spec fn offset_of(bytes: Seq<u8>, cursor: DocCursor) -> int {
    let last = lines::line_count(bytes) - 1;
    let line = if cursor.line < last {
        cursor.line as int
    } else {
        last
    };
    let at = lines::line_start(bytes, line) + cursor.byte;
    if at < lines::line_end(bytes, line) {
        at
    } else {
        lines::line_end(bytes, line)
    }
}

/// The cursor at a byte offset; an offset past the end is the end.
pub open spec fn cursor_at(bytes: Seq<u8>, offset: int) -> DocCursor {
    let at = if offset < bytes.len() {
        offset
    } else {
        bytes.len() as int
    };
    let line = lines::line_at(bytes, at);
    DocCursor { line: line as usize, byte: (at - lines::line_start(bytes, line)) as usize }
}

/// A cursor that names a byte of the text.
pub open spec fn is_exact(bytes: Seq<u8>, cursor: DocCursor) -> bool {
    &&& cursor.line < lines::line_count(bytes)
    &&& lines::line_start(bytes, cursor.line as int) + cursor.byte <= lines::line_end(
        bytes,
        cursor.line as int,
    )
}

/// From an offset to its cursor and back is where it started.
pub proof fn lemma_offset_round_trip(bytes: Seq<u8>, offset: int)
    requires
        0 <= offset <= bytes.len() <= u32::MAX,
    ensures
        is_exact(bytes, cursor_at(bytes, offset)),
        offset_of(bytes, cursor_at(bytes, offset)) == offset,
{
    lines::lemma_line_at(bytes, offset);
    lines::lemma_starts(bytes);
    lines::lemma_line_bounds(bytes, lines::line_at(bytes, offset));
    assert(usize::MAX >= u32::MAX);
    if lines::line_count(bytes) - 1 > usize::MAX {
        assert(bytes.len() > usize::MAX);
    }
}

/// From a cursor to its offset and back is where it started, for a cursor that names a byte
/// of the text.
pub proof fn lemma_cursor_round_trip(bytes: Seq<u8>, cursor: DocCursor)
    requires
        bytes.len() <= u32::MAX,
        is_exact(bytes, cursor),
    ensures
        0 <= offset_of(bytes, cursor) <= bytes.len(),
        cursor_at(bytes, offset_of(bytes, cursor)) == cursor,
{
    lines::lemma_starts(bytes);
    lines::lemma_line_bounds(bytes, cursor.line as int);
    let offset = offset_of(bytes, cursor);
    lines::lemma_line_at(bytes, offset);
    assert(lines::line_start(bytes, cursor.line as int) <= offset);
}

/// Cursors in order have offsets in order, as long as their lines exist.
pub proof fn lemma_offsets_in_order(bytes: Seq<u8>, a: DocCursor, b: DocCursor)
    requires
        a.at_most(b),
        b.line < lines::line_count(bytes),
    ensures
        0 <= offset_of(bytes, a) <= offset_of(bytes, b) <= bytes.len(),
{
    lines::lemma_starts(bytes);
    lines::lemma_line_bounds(bytes, a.line as int);
    lines::lemma_line_bounds(bytes, b.line as int);
    if a.line < b.line {
        lines::lemma_newline_between(bytes, a.line as int);
        assert(lines::starts(bytes)[a.line + 1] <= lines::starts(bytes)[b.line as int]);
    }
}

/// The list is in ascending order, without repeats.
pub open spec fn ascending(list: Seq<usize>) -> bool {
    forall|i: int, j: int| 0 <= i < j < list.len() ==> list[i] < list[j]
}

/// What a [`Document`] holds.
#[verifier::ext_equal]
pub ghost struct DocState {
    /// The text.
    pub bytes: Seq<u8>,
    /// The layout width, as a bit pattern.
    pub width: u32,
    /// The top and the height of the viewport, as bit patterns.
    pub scroll_y: u32,
    pub viewport_h: u32,
    /// The height of each chunk, as a bit pattern: estimated, or measured once laid out.
    pub heights: Seq<u32>,
    /// Where each chunk starts, and where the last one ends.
    pub tops: Seq<u32>,
    /// The chunks that are laid out.
    pub chunks: Set<usize>,
    /// Those of them in and next to the viewport.
    pub window: Set<usize>,
    pub stats: DocStats,
}

/// The number of chunks of a text.
pub open spec fn chunk_count(bytes: Seq<u8>) -> int {
    (lines::line_count(bytes) - 1) / CHUNK_LINES as int + 1
}

/// The first line of a chunk.
pub open spec fn chunk_first(bytes: Seq<u8>, chunk: int) -> int {
    if chunk * CHUNK_LINES < lines::line_count(bytes) {
        chunk * CHUNK_LINES
    } else {
        lines::line_count(bytes)
    }
}

/// The line behind a chunk's last.
pub open spec fn chunk_end(bytes: Seq<u8>, chunk: int) -> int {
    chunk_first(bytes, chunk + 1)
}

/// The bytes of a chunk: its lines, without the last one's newline.
pub open spec fn chunk_bytes(bytes: Seq<u8>, chunk: int) -> Seq<u8> {
    bytes.subrange(
        lines::line_start(bytes, chunk_first(bytes, chunk)),
        lines::line_end(bytes, chunk_end(bytes, chunk) - 1),
    )
}

/// The chunks share the lines out, in order, with no gap and no overlap: the first starts
/// with the first line, each starts where the one before it ends, and the last ends behind
/// the last line. Every chunk holds a line, as many as [`CHUNK_LINES`] but for the last, and
/// every line is in the chunk it belongs to and in no other.
pub proof fn lemma_chunks_partition_lines(bytes: Seq<u8>, line: int, chunk: int)
    requires
        0 <= line < lines::line_count(bytes),
        0 <= chunk < chunk_count(bytes),
    ensures
        chunk_first(bytes, 0) == 0,
        chunk_first(bytes, chunk) == chunk * CHUNK_LINES,
        chunk_end(bytes, chunk) == (if (chunk + 1) * CHUNK_LINES < lines::line_count(bytes) {
            (chunk + 1) * CHUNK_LINES
        } else {
            lines::line_count(bytes)
        }),
        chunk + 1 < chunk_count(bytes) ==> chunk_end(bytes, chunk) == chunk_first(bytes, chunk + 1)
            && chunk_end(bytes, chunk) == chunk_first(bytes, chunk) + CHUNK_LINES,
        chunk + 1 == chunk_count(bytes) ==> chunk_end(bytes, chunk) == lines::line_count(bytes),
        chunk_first(bytes, chunk) < chunk_end(bytes, chunk) <= lines::line_count(bytes),
        line / CHUNK_LINES as int == chunk <==> chunk_first(bytes, chunk) <= line < chunk_end(
            bytes,
            chunk,
        ),
        0 <= (line / CHUNK_LINES as int) < chunk_count(bytes),
        chunk_first(bytes, line / CHUNK_LINES as int) <= line < chunk_end(
            bytes,
            line / CHUNK_LINES as int,
        ),
{
}

/// The text of a chunk has the chunk's lines and no others, in order: the line `k` of the
/// chunk's text is the line of the document that is `k` behind the chunk's first.
pub proof fn lemma_chunk_lines_line_up(bytes: Seq<u8>, chunk: int, k: int)
    requires
        0 <= chunk < chunk_count(bytes),
        0 <= k < chunk_end(bytes, chunk) - chunk_first(bytes, chunk),
    ensures
        lines::line_count(chunk_bytes(bytes, chunk)) == chunk_end(bytes, chunk) - chunk_first(
            bytes,
            chunk,
        ),
        lines::line_bytes(chunk_bytes(bytes, chunk), k) == lines::line_bytes(
            bytes,
            chunk_first(bytes, chunk) + k,
        ),
{
    lines::lemma_lines_of_part(bytes, chunk_first(bytes, chunk), chunk_end(bytes, chunk) - 1);
}

/// Setting a text and appending to it gives the document that setting the whole text at
/// once gives: the same text, with the same lines at the same offsets, in as many chunks.
pub proof fn lemma_append_equals_set_text(
    state: DocState,
    text: Seq<char>,
    more: Seq<char>,
    line: int,
    cursor: DocCursor,
)
    ensures
        ({
            let set = state.with_text(encode_utf8(text), 0);
            let appended = set.with_text(set.bytes + encode_utf8(more), set.append_chunk());
            let whole = state.with_text(encode_utf8(text + more), 0);
            &&& appended.bytes == whole.bytes
            &&& lines::line_count(appended.bytes) == lines::line_count(whole.bytes)
            &&& lines::line_bytes(appended.bytes, line) == lines::line_bytes(whole.bytes, line)
            &&& offset_of(appended.bytes, cursor) == offset_of(whole.bytes, cursor)
            &&& appended.heights.len() == whole.heights.len()
            &&& appended.tops.len() == whole.tops.len()
        }),
{
    text::lemma_encode_concat(text, more);
}

/// The height of every chunk of a text, where each is estimated from the chunk's own text.
pub open spec fn estimates(bytes: Seq<u8>, estimate: spec_fn(Seq<u8>) -> u32) -> Seq<u32> {
    Seq::new(chunk_count(bytes) as nat, |chunk: int| estimate(chunk_bytes(bytes, chunk)))
}

/// An append leaves the text of every chunk in front of the first one that it changes.
pub proof fn lemma_append_keeps_chunks(state: DocState, more: Seq<u8>, chunk: int)
    requires
        0 <= chunk < state.append_chunk(),
    ensures
        chunk_bytes(state.bytes + more, chunk) == chunk_bytes(state.bytes, chunk),
{
    let bytes = state.bytes;
    let first = chunk_first(bytes, chunk);
    let end = chunk_end(bytes, chunk);
    lines::lemma_starts(bytes);
    lines::lemma_starts_grow(bytes, more);
    assert(0 <= first < end < lines::line_count(bytes));
    lines::lemma_line_bounds(bytes, first);
    lines::lemma_newline_between(bytes, end - 1);
    assert(lines::starts(bytes + more)[first] == lines::starts(bytes)[first]);
    assert(lines::starts(bytes + more)[end] == lines::starts(bytes)[end]);
    if first < end - 1 {
        assert(lines::starts(bytes)[first] < lines::starts(bytes)[end - 1]);
    }
    assert(chunk_bytes(bytes + more, chunk) =~= chunk_bytes(bytes, chunk));
}

/// Where each chunk's height is estimated from its own text, it makes no difference whether a
/// text is set at once, or set in part, estimated, and then appended to: estimating again the
/// chunks from the first changed one on gives the heights that estimating all of them gives.
pub proof fn lemma_append_equals_set_text_in_height(
    state: DocState,
    more: Seq<u8>,
    estimate: spec_fn(Seq<u8>) -> u32,
)
    requires
        state.heights == estimates(state.bytes, estimate),
    ensures
        ({
            let dirty = state.append_chunk();
            let appended = state.with_text(state.bytes + more, dirty);
            appended.heights.take(dirty) + estimates(appended.bytes, estimate).skip(dirty)
                == estimates(appended.bytes, estimate)
        }),
{
    let dirty = state.append_chunk();
    let appended = state.with_text(state.bytes + more, dirty);
    let all = estimates(appended.bytes, estimate);
    lines::lemma_starts(state.bytes);
    lines::lemma_starts_grow(state.bytes, more);
    assert(0 <= dirty < chunk_count(state.bytes) <= chunk_count(appended.bytes));
    assert forall|chunk: int| 0 <= chunk < dirty implies #[trigger] appended.heights[chunk]
        == all[chunk] by {
        lemma_append_keeps_chunks(state, more, chunk);
    }
    assert(appended.heights.take(dirty) + all.skip(dirty) =~= all);
}

/// Appending keeps every line but the last.
pub proof fn lemma_append_keeps_lines(state: DocState, more: Seq<u8>, line: int)
    requires
        0 <= line < lines::line_count(state.bytes) - 1,
    ensures
        lines::line_bytes(
            state.with_text(state.bytes + more, state.append_chunk()).bytes,
            line,
        ) == lines::line_bytes(state.bytes, line),
{
    lines::lemma_lines_stay(state.bytes, more, line);
}

impl DocState {
    /// One height per chunk, and the laid-out chunks are chunks of the text, as many as the
    /// counters say.
    pub open spec fn valid(self) -> bool {
        &&& valid_utf8(self.bytes)
        &&& self.bytes.len() <= u32::MAX
        &&& self.heights.len() == chunk_count(self.bytes)
        &&& self.tops.len() == chunk_count(self.bytes) + 1
        &&& self.chunks.finite()
        &&& forall|c: usize| #[trigger] self.chunks.contains(c) ==> c < chunk_count(self.bytes)
        &&& self.window.subset_of(self.chunks)
        &&& self.stats.resident_chunks == self.chunks.len()
    }

    /// The document without the laid-out chunks from `first` on.
    pub open spec fn without_chunks_from(self, first: int) -> DocState {
        let kept = self.chunks.filter(|c: usize| c < first);
        DocState {
            chunks: kept,
            window: self.window.intersect(kept),
            stats: DocStats {
                evicted_total: (self.stats.evicted_total + self.chunks.len() - kept.len()) as usize,
                resident_chunks: kept.len() as usize,
                ..self.stats
            },
            ..self
        }
    }

    /// The document with another text. The heights of the chunks from `first` on are open
    /// until new estimates are handed in.
    pub open spec fn with_text(self, bytes: Seq<u8>, first: int) -> DocState {
        DocState {
            bytes,
            heights: Seq::new(
                chunk_count(bytes) as nat,
                |i: int|
                    if i < first {
                        self.heights[i]
                    } else {
                        0
                    },
            ),
            tops: Seq::new((chunk_count(bytes) + 1) as nat, |i: int| 0u32),
            ..self.without_chunks_from(first)
        }
    }

    /// The document with the viewport elsewhere. Another width drops every laid-out chunk.
    pub open spec fn at_viewport(self, width: u32, scroll_y: u32, height: u32) -> DocState {
        let wide = if bits::float_eq(width, self.width) {
            self
        } else {
            DocState { width, ..self }.with_text(self.bytes, 0)
        };
        DocState {
            scroll_y,
            viewport_h: height,
            stats: DocStats { shaped_last: 0, ..wide.stats },
            ..wide
        }
    }

    /// The document with the window on the laid-out chunks of `lo..=hi`.
    pub open spec fn with_window(self, lo: int, hi: int) -> DocState {
        DocState { window: window_of(self.chunks, lo, hi), ..self }
    }

    /// The first chunk that an append changes: the one that the last line is in.
    pub open spec fn append_chunk(self) -> int {
        (lines::line_count(self.bytes) - 1) / CHUNK_LINES as int
    }

    /// The document once a chunk was laid out.
    pub open spec fn with_chunk(self, chunk: usize, height: u32) -> DocState {
        DocState {
            chunks: self.chunks.insert(chunk),
            heights: self.heights.update(chunk as int, height),
            stats: DocStats {
                resident_chunks: self.chunks.insert(chunk).len() as usize,
                shaped_last: (self.stats.shaped_last + 1) as usize,
                shaped_total: (self.stats.shaped_total + 1) as usize,
                lines_shaped_total: (self.stats.lines_shaped_total + chunk_end(
                    self.bytes,
                    chunk as int,
                ) - chunk_first(self.bytes, chunk as int)) as usize,
                ..self.stats
            },
            ..self
        }
    }
}

/// The part of a list in `lo..below`.
fn keep(list: &Vec<usize>, lo: usize, below: usize) -> (kept: Vec<usize>)
    requires
        ascending(list@),
    ensures
        ascending(kept@),
        forall|c: usize| #[trigger]
            kept@.contains(c) <==> list@.contains(c) && lo <= c < below,
{
    let mut kept: Vec<usize> = Vec::new();
    let mut i: usize = 0;
    while i < list.len()
        invariant
            i <= list@.len(),
            ascending(list@),
            ascending(kept@),
            forall|k: int| 0 <= k < kept@.len() ==> list@.take(i as int).contains(#[trigger] kept@[k]),
            forall|c: usize| #[trigger]
                kept@.contains(c) <==> list@.take(i as int).contains(c) && lo <= c < below,
        decreases list@.len() - i,
    {
        let c: usize = list[i];
        let ghost before = kept@;
        let ghost seen = list@.take(i as int);
        assert(list@.take(i + 1) =~= seen.push(c));
        if lo <= c && c < below {
            assert forall|k: int| 0 <= k < before.len() implies #[trigger] before[k] < c by {
                let j = choose|j: int| 0 <= j < seen.len() && seen[j] == before[k];
                assert(list@[j] < list@[i as int]);
            }
            kept.push(c);
        }
        i = i + 1;
        assert forall|x: usize| #[trigger] kept@.contains(x) <==> list@.take(i as int).contains(x)
            && lo <= x < below by {
            lemma_push_contains(seen, c, x);
            lemma_push_contains(before, c, x);
            assert(before.contains(x) <==> seen.contains(x) && lo <= x < below);
        }
        assert forall|k: int| 0 <= k < kept@.len() implies list@.take(i as int).contains(
            #[trigger] kept@[k],
        ) by {
            assert(kept@.contains(kept@[k]));
        }
    }
    assert(list@.take(i as int) =~= list@);
    kept
}

proof fn lemma_push_contains(s: Seq<usize>, x: usize, y: usize)
    ensures
        s.push(x).contains(y) <==> s.contains(y) || y == x,
{
    if s.push(x).contains(y) && y != x {
        let i = choose|i: int| 0 <= i < s.push(x).len() && s.push(x)[i] == y;
        assert(s[i] == y);
    }
    if s.contains(y) {
        let i = choose|i: int| 0 <= i < s.len() && s[i] == y;
        assert(s.push(x)[i] == y);
    }
    assert(s.push(x)[s.len() as int] == x);
}

/// An ascending list holds as many elements as it is long.
proof fn lemma_ascending_len(list: Seq<usize>)
    requires
        ascending(list),
    ensures
        list.to_set().finite(),
        list.to_set().len() == list.len(),
{
    assert(list.no_duplicates());
    list.unique_seq_to_set();
}

/// Whether an ascending list holds a number.
fn is_listed(list: &Vec<usize>, c: usize) -> (yes: bool)
    requires
        ascending(list@),
    ensures
        yes == list@.contains(c),
{
    let mut lo: usize = 0;
    let mut hi: usize = list.len();
    while lo < hi
        invariant
            0 <= lo <= hi <= list@.len(),
            ascending(list@),
            forall|k: int| 0 <= k < lo ==> #[trigger] list@[k] < c,
            forall|k: int| hi <= k < list@.len() ==> #[trigger] list@[k] > c,
        decreases hi - lo,
    {
        let mid: usize = lo + (hi - lo) / 2;
        if list[mid] < c {
            lo = mid + 1;
        } else if list[mid] > c {
            hi = mid;
        } else {
            return true;
        }
    }
    false
}

/// Puts a number into an ascending list, which does not hold it yet.
fn put(list: &mut Vec<usize>, c: usize)
    requires
        ascending(old(list)@),
        !old(list)@.contains(c),
    ensures
        ascending(final(list)@),
        forall|x: usize| #[trigger] final(list)@.contains(x) <==> old(list)@.contains(x) || x == c,
{
    let mut i: usize = 0;
    while i < list.len() && list[i] < c
        invariant
            list@ == old(list)@,
            i <= list@.len(),
            ascending(list@),
            !list@.contains(c),
            forall|k: int| 0 <= k < i ==> #[trigger] list@[k] < c,
        decreases list@.len() - i,
    {
        i = i + 1;
    }
    proof {
        assert forall|k: int| i <= k < list@.len() implies #[trigger] list@[k] > c by {
            assert(list@[i as int] != c);
            assert(list@[i as int] > c);
        }
    }
    list.insert(i, c);
    proof {
        let before = old(list)@;
        assert(list@ =~= before.insert(i as int, c));
        assert forall|x: usize| #[trigger] list@.contains(x) <==> before.contains(x) || x == c by {
            if before.contains(x) {
                let k = choose|k: int| 0 <= k < before.len() && before[k] == x;
                if k < i {
                    assert(list@[k] == x);
                } else {
                    assert(list@[k + 1] == x);
                }
            }
            assert(list@[i as int] == c);
            if list@.contains(x) && x != c {
                let k = choose|k: int| 0 <= k < list@.len() && list@[k] == x;
                if k < i {
                    assert(before[k] == x);
                } else {
                    assert(before[k - 1] == x);
                }
            }
        }
    }
}

/// The edge is on the near side of `key`: before it, or before it or on it.
pub open spec fn edge_before(edge: u32, key: u32, strictly: bool) -> bool {
    bits::float_lt(edge, key) || !strictly && bits::float_eq(edge, key)
}

/// How many edges, from the first one on, are on the near side of `key`.
pub open spec fn edges_before(edges: Seq<u32>, key: u32, strictly: bool) -> int
    decreases edges.len(),
{
    if edges.len() == 0 || !edge_before(edges[0], key, strictly) {
        0
    } else {
        1 + edges_before(edges.drop_first(), key, strictly)
    }
}

/// The edges are numbers, none less than one before it.
pub open spec fn edges_ascend(edges: Seq<u32>) -> bool {
    &&& forall|i: int| 0 <= i < edges.len() ==> !bits::is_nan(#[trigger] edges[i])
    &&& forall|i: int, j: int|
        0 <= i <= j < edges.len() ==> bits::rank(#[trigger] edges[i]) <= bits::rank(
            #[trigger] edges[j],
        )
}

proof fn lemma_edges_before(edges: Seq<u32>, key: u32, strictly: bool, n: int)
    requires
        0 <= n <= edges.len(),
        forall|i: int| 0 <= i < n ==> edge_before(#[trigger] edges[i], key, strictly),
        n < edges.len() ==> !edge_before(edges[n], key, strictly),
    ensures
        edges_before(edges, key, strictly) == n,
    decreases n,
{
    if n > 0 {
        assert(edge_before(edges[0], key, strictly));
        let rest = edges.drop_first();
        assert forall|i: int| 0 <= i < n - 1 implies edge_before(
            #[trigger] rest[i],
            key,
            strictly,
        ) by {
            assert(rest[i] == edges[i + 1]);
        }
        lemma_edges_before(rest, key, strictly, n - 1);
    }
}

/// How many of the edges `from..to` are on the near side of `key`, found by binary search.
fn count_before(edges: &Vec<u32>, from: usize, to: usize, key: u32, strictly: bool) -> (n: usize)
    requires
        from <= to <= edges@.len(),
    ensures
        n <= to - from,
        edges_ascend(edges@) ==> n == edges_before(
            edges@.subrange(from as int, to as int),
            key,
            strictly,
        ),
{
    let mut lo: usize = from;
    let mut hi: usize = to;
    while lo < hi
        invariant
            from <= lo <= hi <= to <= edges@.len(),
            edges_ascend(edges@) ==> forall|k: int|
                from <= k < lo ==> edge_before(#[trigger] edges@[k], key, strictly),
            edges_ascend(edges@) ==> forall|k: int|
                hi <= k < to ==> !edge_before(#[trigger] edges@[k], key, strictly),
        decreases hi - lo,
    {
        let mid: usize = lo + (hi - lo) / 2;
        if bits::less(edges[mid], key) || !strictly && bits::same(edges[mid], key) {
            lo = mid + 1;
        } else {
            hi = mid;
        }
    }
    proof {
        if edges_ascend(edges@) {
            lemma_edges_before(
                edges@.subrange(from as int, to as int),
                key,
                strictly,
                lo - from,
            );
        }
    }
    lo - from
}

/// The chunks that the viewport shows: from the first one that ends behind its top to the
/// last one that starts before its bottom.
pub open spec fn viewport_range(tops: Seq<u32>, scroll_y: u32, bottom: u32) -> (int, int) {
    let last = tops.len() - 2;
    let ended = edges_before(tops.subrange(1, tops.len() as int), scroll_y, false);
    let begun = edges_before(tops.subrange(0, tops.len() - 1), bottom, true);
    let first = if ended < last {
        ended
    } else {
        last
    };
    let end = if begun - 1 < first {
        first
    } else {
        begun - 1
    };
    (
        first,
        if end < last {
            end
        } else {
            last
        },
    )
}

proof fn lemma_edges_before_bounds(edges: Seq<u32>, key: u32, strictly: bool)
    ensures
        0 <= edges_before(edges, key, strictly) <= edges.len(),
        forall|i: int|
            0 <= i < edges_before(edges, key, strictly) ==> edge_before(
                #[trigger] edges[i],
                key,
                strictly,
            ),
        edges_before(edges, key, strictly) < edges.len() ==> !edge_before(
            edges[edges_before(edges, key, strictly)],
            key,
            strictly,
        ),
    decreases edges.len(),
{
    if edges.len() != 0 && edge_before(edges[0], key, strictly) {
        let rest = edges.drop_first();
        lemma_edges_before_bounds(rest, key, strictly);
        assert forall|i: int| 0 <= i < edges_before(edges, key, strictly) implies edge_before(
            #[trigger] edges[i],
            key,
            strictly,
        ) by {
            if i > 0 {
                assert(edges[i] == rest[i - 1]);
            }
        }
    }
}

/// Every chunk that shows in the viewport is in the range: one that ends behind the top of
/// the viewport and starts before its bottom.
pub proof fn lemma_visible_chunks_in_range(tops: Seq<u32>, scroll_y: u32, bottom: u32, chunk: int)
    requires
        2 <= tops.len(),
        edges_ascend(tops),
        0 <= chunk < tops.len() - 1,
        bits::float_lt(scroll_y, tops[chunk + 1]),
        bits::float_lt(tops[chunk], bottom),
    ensures
        ({
            let (first, last) = viewport_range(tops, scroll_y, bottom);
            first <= chunk <= last
        }),
{
    let ends = tops.subrange(1, tops.len() as int);
    let begins = tops.subrange(0, tops.len() - 1);
    lemma_edges_before_bounds(ends, scroll_y, false);
    lemma_edges_before_bounds(begins, bottom, true);
    let ended = edges_before(ends, scroll_y, false);
    let begun = edges_before(begins, bottom, true);
    if ended > chunk {
        assert(edge_before(ends[chunk], scroll_y, false));
    }
    if begun <= chunk {
        assert(!edge_before(begins[begun], bottom, true));
        assert(bits::rank(tops[begun]) <= bits::rank(tops[chunk]));
    }
}

/// What is to be done about a viewport: the chunks it shows, those to be laid out with
/// them, and which of these are not.
pub struct Pass {
    /// The chunks that the viewport shows.
    pub first: usize,
    pub last: usize,
    /// Those and their neighbours.
    pub lo: usize,
    pub hi: usize,
    /// Those of them that are to be laid out, in ascending order.
    pub missing: Vec<usize>,
}

/// The most passes over a viewport. Laying chunks out corrects their heights, which moves
/// what is below them, which can pull a new chunk into view: a second pass settles it.
pub const PASSES: usize = 2;

/// How far a chunk is from another.
pub open spec fn distance(chunk: usize, center: int) -> int {
    if chunk < center {
        center - chunk
    } else {
        chunk - center
    }
}

/// The first chunk is to be kept rather than the second: it is closer to the center, or as
/// close and further down.
pub open spec fn nearer(kept: usize, dropped: usize, center: int) -> bool {
    distance(kept, center) < distance(dropped, center) || distance(kept, center) == distance(
        dropped,
        center,
    ) && kept > dropped
}

/// The chunks near enough to the viewport to be kept.
pub open spec fn retained(chunks: Set<usize>, first: int, last: int) -> Set<usize> {
    chunks.filter(|c: usize| first - RETAIN_CHUNKS <= c <= last + RETAIN_CHUNKS)
}

/// What an eviction does: of the chunks near enough to the viewport, those nearest to its
/// middle are kept, up to [`MAX_RESIDENT`], and all others are dropped, from the window too.
pub open spec fn evicts(before: DocState, first: int, last: int, after: DocState) -> bool {
    let near = retained(before.chunks, first, last);
    &&& after.chunks.subset_of(near)
    &&& after.chunks.len() == if near.len() < MAX_RESIDENT {
        near.len() as int
    } else {
        MAX_RESIDENT as int
    }
    &&& forall|k: usize, d: usize| #[trigger]
        after.chunks.contains(k) && #[trigger] near.contains(d) && !after.chunks.contains(d)
            ==> nearer(k, d, (first + last) / 2)
    &&& after == DocState {
        chunks: after.chunks,
        window: before.window.intersect(after.chunks),
        stats: DocStats {
            evicted_total: (before.stats.evicted_total + before.chunks.len() - after.chunks.len()) as usize,
            resident_chunks: after.chunks.len() as usize,
            ..before.stats
        },
        ..before
    }
}

/// The chunks that are laid out of `lo..=hi`.
pub open spec fn window_of(chunks: Set<usize>, lo: int, hi: int) -> Set<usize> {
    chunks.filter(|c: usize| lo <= c <= hi)
}

/// An eviction never drops a chunk of a window that the cap has room for: those are about to
/// be drawn.
pub proof fn lemma_eviction_keeps_window(before: DocState, first: int, last: int, after: DocState)
    requires
        before.valid(),
        0 <= first <= last < chunk_count(before.bytes),
        before.window == window_of(
            before.chunks,
            first - WINDOW_CHUNKS,
            last + WINDOW_CHUNKS,
        ),
        before.window.len() <= MAX_RESIDENT,
        evicts(before, first, last, after),
    ensures
        after.window == before.window,
{
    let near = retained(before.chunks, first, last);
    assert(near.subset_of(before.chunks));
    vstd::set_lib::lemma_set_subset_finite(before.chunks, near);
    vstd::set_lib::lemma_set_subset_finite(near, after.chunks);
    vstd::set_lib::lemma_set_subset_finite(before.chunks, before.window);
    assert forall|w: usize| before.window.contains(w) implies after.chunks.contains(w) by {
        if !after.chunks.contains(w) {
            assert(near.contains(w));
            if near.len() <= after.chunks.len() {
                vstd::set_lib::lemma_subset_equality(after.chunks, near);
            }
            let others = before.window.remove(w);
            if after.chunks.subset_of(others) {
                vstd::set_lib::lemma_len_subset(after.chunks, others);
            }
            let k = choose|k: usize| after.chunks.contains(k) && !others.contains(k);
            assert(near.contains(k));
            assert(nearer(k, w, (first + last) / 2));
        }
    }
    assert(after.window =~= before.window);
}

/// A large text of which only the chunks that show are laid out.
pub struct Document {
    indexed: IndexedText,
    width: u32,
    scroll_y: u32,
    viewport_h: u32,
    heights: Vec<u32>,
    tops: Vec<u32>,
    /// The chunks that are laid out, ascending.
    chunks: Vec<usize>,
    /// Those of them in and next to the viewport, ascending.
    window: Vec<usize>,
    stats: DocStats,
}

impl View for Document {
    type V = DocState;

    closed spec fn view(&self) -> DocState {
        DocState {
            bytes: self.indexed@,
            width: self.width,
            scroll_y: self.scroll_y,
            viewport_h: self.viewport_h,
            heights: self.heights@,
            tops: self.tops@,
            chunks: self.chunks@.to_set(),
            window: self.window@.to_set(),
            stats: self.stats,
        }
    }
}

/// As many zeros as asked for, behind a list that is kept.
fn padded(list: &Vec<u32>, keep: usize, len: usize) -> (out: Vec<u32>)
    requires
        keep <= list@.len(),
    ensures
        out@ == Seq::new(
            len as nat,
            |i: int|
                if i < keep {
                    list@[i]
                } else {
                    0
                },
        ),
{
    let mut out: Vec<u32> = Vec::new();
    let mut i: usize = 0;
    while i < len
        invariant
            i <= len,
            keep <= list@.len(),
            out@ == Seq::new(
                i as nat,
                |k: int|
                    if k < keep {
                        list@[k]
                    } else {
                        0
                    },
            ),
        decreases len - i,
    {
        if i < keep {
            out.push(list[i]);
        } else {
            out.push(0);
        }
        i = i + 1;
        assert(out@ =~= Seq::new(
            i as nat,
            |k: int|
                if k < keep {
                    list@[k]
                } else {
                    0
                },
        ));
    }
    out
}

impl Document {
    /// The state is valid, the index is that of the text, and the lists are in order.
    pub closed spec fn wf(&self) -> bool {
        &&& self@.valid()
        &&& self.indexed.wf()
        &&& ascending(self.chunks@)
        &&& ascending(self.window@)
    }

    /// What every operation keeps: the state of a well-formed document is valid.
    pub proof fn lemma_valid(&self)
        requires
            self.wf(),
        ensures
            self@.valid(),
    {
    }

    /// The characters of the text.
    pub closed spec fn chars(&self) -> Seq<char> {
        self.indexed.chars()
    }

    /// An empty document, as wide as it needs to be. The height of its one chunk is open
    /// until an estimate is handed in.
    pub fn new() -> (doc: Document)
        ensures
            doc.wf(),
            doc@ == (DocState {
                bytes: Seq::empty(),
                width: bits::INFINITY,
                scroll_y: 0,
                viewport_h: 0,
                heights: seq![0u32],
                tops: seq![0u32, 0u32],
                chunks: Set::empty(),
                window: Set::empty(),
                stats: DocStats {
                    resident_chunks: 0,
                    shaped_last: 0,
                    shaped_total: 0,
                    evicted_total: 0,
                    lines_shaped_total: 0,
                },
            }),
    {
        let mut heights: Vec<u32> = Vec::new();
        heights.push(0);
        let mut tops: Vec<u32> = Vec::new();
        tops.push(0);
        tops.push(0);
        let doc = Document {
            indexed: IndexedText::new(),
            width: bits::INFINITY,
            scroll_y: 0,
            viewport_h: 0,
            heights,
            tops,
            chunks: Vec::new(),
            window: Vec::new(),
            stats: DocStats {
                resident_chunks: 0,
                shaped_last: 0,
                shaped_total: 0,
                evicted_total: 0,
                lines_shaped_total: 0,
            },
        };
        proof {
            doc.indexed.lemma_valid();
            assert(lines::starts(doc@.bytes) =~= seq![0int]);
            assert(doc@.heights =~= seq![0u32]);
            assert(doc@.tops =~= seq![0u32, 0u32]);
            assert(doc@.chunks =~= Set::empty());
            assert(doc@.window =~= Set::empty());
        }
        doc
    }

    /// Drops the laid-out chunks from `first` on.
    fn drop_chunks_from(&mut self, first: usize)
        requires
            old(self).wf(),
            old(self)@.stats.evicted_total + old(self)@.chunks.len() <= usize::MAX,
        ensures
            final(self).indexed == old(self).indexed,
            ascending(final(self).chunks@),
            ascending(final(self).window@),
            final(self)@ == old(self)@.without_chunks_from(first as int),
            final(self)@.valid(),
    {
        let before: usize = self.chunks.len();
        let chunks: Vec<usize> = keep(&self.chunks, 0, first);
        let window: Vec<usize> = keep(&self.window, 0, first);
        proof {
            let kept = self@.chunks.filter(|c: usize| c < first);
            assert(chunks@.to_set() =~= kept) by {
                assert forall|c: usize| chunks@.to_set().contains(c) <==> kept.contains(c) by {
                    assert(chunks@.contains(c) <==> self.chunks@.contains(c) && 0 <= c < first);
                }
            }
            assert(window@.to_set() =~= self@.window.intersect(kept)) by {
                assert forall|c: usize|
                    window@.to_set().contains(c) <==> self@.window.intersect(kept).contains(c) by {
                    assert(window@.contains(c) <==> self.window@.contains(c) && 0 <= c < first);
                    assert(self@.window.contains(c) ==> self@.chunks.contains(c));
                }
            }
            lemma_ascending_len(self.chunks@);
            lemma_ascending_len(chunks@);
            vstd::set_lib::lemma_len_subset(kept, self@.chunks);
        }
        let kept: usize = chunks.len();
        self.stats = DocStats {
            resident_chunks: kept,
            shaped_last: self.stats.shaped_last,
            shaped_total: self.stats.shaped_total,
            evicted_total: self.stats.evicted_total + (before - kept),
            lines_shaped_total: self.stats.lines_shaped_total,
        };
        self.chunks = chunks;
        self.window = window;
        assert(self@ =~= old(self)@.without_chunks_from(first as int));
    }

    /// Makes room for the heights of the chunks from `first` on, which are open until new
    /// estimates are handed in.
    fn open_heights_from(&mut self, first: usize)
        requires
            old(self).indexed.wf(),
            old(self)@.stats.resident_chunks == old(self)@.chunks.len(),
            ascending(old(self).chunks@),
            ascending(old(self).window@),
            first <= old(self)@.heights.len(),
            first < chunk_count(old(self)@.bytes),
            valid_utf8(old(self)@.bytes),
            forall|c: usize| #[trigger] old(self)@.chunks.contains(c) ==> c < first,
            old(self)@.window.subset_of(old(self)@.chunks),
        ensures
            final(self).wf(),
            final(self).indexed == old(self).indexed,
            final(self)@ == (DocState {
                heights: Seq::new(
                    chunk_count(old(self)@.bytes) as nat,
                    |i: int|
                        if i < first {
                            old(self)@.heights[i]
                        } else {
                            0
                        },
                ),
                tops: Seq::new((chunk_count(old(self)@.bytes) + 1) as nat, |i: int| 0u32),
                ..old(self)@
            }),
    {
        proof {
            self.indexed.lemma_sizes();
            lemma_ascending_len(self.chunks@);
        }
        let count: usize = self.chunk_total();
        self.heights = padded(&self.heights, first, count);
        self.tops = padded(&self.tops, 0, count + 1);
        assert(self@ =~= DocState {
            heights: Seq::new(
                chunk_count(old(self)@.bytes) as nat,
                |i: int|
                    if i < first {
                        old(self)@.heights[i]
                    } else {
                        0
                    },
            ),
            tops: Seq::new((chunk_count(old(self)@.bytes) + 1) as nat, |i: int| 0u32),
            ..old(self)@
        });
    }

    fn chunk_total(&self) -> (count: usize)
        requires
            self.indexed.wf(),
        ensures
            count == chunk_count(self@.bytes),
            count < usize::MAX,
    {
        proof {
            self.indexed.lemma_sizes();
        }
        (self.indexed.line_count() - 1) / CHUNK_LINES + 1
    }

    /// Replaces the whole text. The heights of all chunks are open until new estimates are
    /// handed in.
    pub fn set_text(&mut self, text: &str)
        requires
            old(self).wf(),
            encode_utf8(text@).len() <= u32::MAX,
            old(self)@.stats.evicted_total + old(self)@.chunks.len() <= usize::MAX,
        ensures
            final(self).wf(),
            final(self)@ == old(self)@.with_text(encode_utf8(text@), 0),
            final(self).chars() == text@,
    {
        self.drop_chunks_from(0);
        self.indexed.set_text(text);
        proof {
            self.indexed.lemma_valid();
            self.indexed.lemma_sizes();
        }
        self.open_heights_from(0);
        assert(self@ =~= old(self)@.with_text(encode_utf8(text@), 0));
    }

    /// Appends to the text, extending the line index over what is new only. The line that
    /// the new text lands in grows, so its chunk and every chunk behind it are to be laid
    /// out again: the first of them is handed back, nothing where there is no new text.
    pub fn append(&mut self, text: &str) -> (dirty: Option<usize>)
        requires
            old(self).wf(),
            old(self)@.bytes.len() + encode_utf8(text@).len() <= u32::MAX,
            old(self)@.stats.evicted_total + old(self)@.chunks.len() <= usize::MAX,
        ensures
            final(self).wf(),
            final(self).chars() == old(self).chars() + text@,
            text@.len() == 0 ==> dirty is None && final(self)@ == old(self)@,
            text@.len() > 0 ==> dirty is Some && dirty->0 == old(self)@.append_chunk()
                && final(self)@ == old(self)@.with_text(
                old(self)@.bytes + encode_utf8(text@),
                old(self)@.append_chunk(),
            ),
    {
        if text.is_empty() {
            assert(text@ =~= Seq::empty());
            assert(self.chars() =~= old(self).chars() + text@);
            return None;
        }
        proof {
            self.indexed.lemma_sizes();
            lines::lemma_starts_grow(self@.bytes, encode_utf8(text@));
        }
        let dirty: usize = chunk_of_line(self.indexed.line_count() - 1);
        self.drop_chunks_from(dirty);
        self.indexed.append(text);
        proof {
            self.indexed.lemma_valid();
        }
        self.open_heights_from(dirty);
        assert(self@ =~= old(self)@.with_text(
            old(self)@.bytes + encode_utf8(text@),
            old(self)@.append_chunk(),
        ));
        Some(dirty)
    }

    /// Drops every laid-out chunk, after a change of what they were laid out with. The
    /// heights of all chunks are open until new estimates are handed in.
    pub fn invalidate_shaping(&mut self)
        requires
            old(self).wf(),
            old(self)@.stats.evicted_total + old(self)@.chunks.len() <= usize::MAX,
        ensures
            final(self).wf(),
            final(self)@ == old(self)@.with_text(old(self)@.bytes, 0),
            final(self).chars() == old(self).chars(),
    {
        self.drop_chunks_from(0);
        proof {
            self.indexed.lemma_valid();
            self.indexed.lemma_sizes();
        }
        self.open_heights_from(0);
        assert(self@ =~= old(self)@.with_text(old(self)@.bytes, 0));
    }

    /// Takes new heights of the chunks from `first` on, and where all chunks now start.
    pub fn relayout(&mut self, first: usize, heights: &Vec<u32>, tops: Vec<u32>)
        requires
            old(self).wf(),
            first + heights@.len() == old(self)@.heights.len(),
            tops@.len() == old(self)@.tops.len(),
        ensures
            final(self).wf(),
            final(self)@ == (DocState {
                heights: old(self)@.heights.take(first as int) + heights@,
                tops: tops@,
                ..old(self)@
            }),
            final(self).chars() == old(self).chars(),
    {
        self.heights.truncate(first);
        self.heights.extend_from_slice(heights.as_slice());
        self.tops = tops;
        assert(self@ =~= DocState {
            heights: old(self)@.heights.take(first as int) + heights@,
            tops: tops@,
            ..old(self)@
        });
    }

    /// The whole text.
    pub fn text(&self) -> (text: &str)
        ensures
            text@ == self.chars(),
            encode_utf8(text@) == self@.bytes,
    {
        self.indexed.text()
    }

    /// The number of lines.
    pub fn line_count(&self) -> (n: usize)
        requires
            self.wf(),
        ensures
            n == lines::line_count(self@.bytes),
    {
        self.indexed.line_count()
    }

    /// One line's text, without its newline.
    pub fn line(&self, line: usize) -> (text: &str)
        requires
            self.wf(),
            line < lines::line_count(self@.bytes),
        ensures
            encode_utf8(text@) == lines::line_bytes(self@.bytes, line as int),
    {
        self.indexed.line(line)
    }

    /// The byte range of a line, without its newline.
    pub fn line_bounds(&self, line: usize) -> (bounds: (usize, usize))
        requires
            self.wf(),
            line < lines::line_count(self@.bytes),
        ensures
            bounds.0 == lines::line_start(self@.bytes, line as int),
            bounds.1 == lines::line_end(self@.bytes, line as int),
    {
        self.indexed.line_bounds(line)
    }

    /// The characters of a line.
    pub fn cols(&self, line: usize) -> (n: u32)
        requires
            self.wf(),
            line < lines::line_count(self@.bytes),
        ensures
            n == lines::line_cols(self@.bytes, line as int),
    {
        self.indexed.cols(line)
    }

    /// The layout width.
    pub fn width(&self) -> (width: u32)
        ensures
            width == self@.width,
    {
        self.width
    }

    /// The document's height: where the last chunk ends.
    pub fn total_height(&self) -> (height: u32)
        requires
            self.wf(),
        ensures
            height == self@.tops.last(),
    {
        self.tops[self.tops.len() - 1]
    }

    /// The top of the viewport.
    pub fn scroll_y(&self) -> (y: u32)
        ensures
            y == self@.scroll_y,
    {
        self.scroll_y
    }

    /// The height of the viewport.
    pub fn viewport_height(&self) -> (height: u32)
        ensures
            height == self@.viewport_h,
    {
        self.viewport_h
    }

    /// What the layout window has been doing.
    pub fn stats(&self) -> (stats: DocStats)
        ensures
            stats == self@.stats,
    {
        self.stats
    }

    /// The number of chunks.
    pub fn chunk_count(&self) -> (n: usize)
        requires
            self.wf(),
        ensures
            n == chunk_count(self@.bytes),
            n == self@.heights.len(),
    {
        self.heights.len()
    }

    /// The chunk a line belongs to.
    pub fn chunk_of_line(&self, line: usize) -> (chunk: usize)
        ensures
            chunk == line as int / CHUNK_LINES as int,
    {
        chunk_of_line(line)
    }

    /// The lines of a chunk, from the first one to the one behind the last; no lines, behind
    /// the last one, for a chunk that is not there.
    pub fn chunk_lines(&self, chunk: usize) -> (range: (usize, usize))
        requires
            self.wf(),
        ensures
            range.0 == chunk_first(self@.bytes, chunk as int),
            range.1 == chunk_end(self@.bytes, chunk as int),
            chunk < chunk_count(self@.bytes) ==> range.0 == chunk * CHUNK_LINES && range.0
                < range.1,
            chunk >= chunk_count(self@.bytes) ==> range.0 == range.1,
    {
        let count: usize = self.indexed.line_count();
        if chunk > count / CHUNK_LINES {
            return (count, count);
        }
        let start: usize = chunk * CHUNK_LINES;
        let end: usize = if count - start > CHUNK_LINES {
            start + CHUNK_LINES
        } else {
            count
        };
        (start, end)
    }

    /// The text of a chunk.
    pub fn chunk_text(&self, chunk: usize) -> (text: &str)
        requires
            self.wf(),
            chunk < chunk_count(self@.bytes),
        ensures
            encode_utf8(text@) == chunk_bytes(self@.bytes, chunk as int),
    {
        proof {
            self.indexed.lemma_sizes();
            self.indexed.lemma_valid();
        }
        let count: usize = self.indexed.line_count();
        let first: usize = chunk * CHUNK_LINES;
        let end: usize = if count - first > CHUNK_LINES {
            first + CHUNK_LINES
        } else {
            count
        };
        let (from, unused) = self.indexed.line_bounds(first);
        let (unused, to) = self.indexed.line_bounds(end - 1);
        proof {
            let bytes = self@.bytes;
            lines::lemma_line_boundaries(bytes, first as int);
            lines::lemma_line_boundaries(bytes, end - 1);
            lines::lemma_starts(bytes);
            if first < end - 1 {
                assert(lines::starts(bytes)[first as int] < lines::starts(bytes)[end - 1]);
            }
            lines::lemma_line_bounds(bytes, end - 1);
        }
        self.indexed.part(from, to)
    }

    /// Where a chunk starts; a chunk that is not there starts at the top.
    pub fn chunk_top(&self, chunk: usize) -> (top: u32)
        requires
            self.wf(),
        ensures
            top == (if chunk < self@.tops.len() {
                self@.tops[chunk as int]
            } else {
                0
            }),
    {
        if chunk < self.tops.len() {
            self.tops[chunk]
        } else {
            0
        }
    }

    /// The height of a chunk.
    pub fn chunk_height(&self, chunk: usize) -> (height: u32)
        requires
            self.wf(),
            chunk < chunk_count(self@.bytes),
        ensures
            height == self@.heights[chunk as int],
    {
        self.heights[chunk]
    }

    /// Whether a chunk is laid out.
    pub fn is_shaped(&self, chunk: usize) -> (yes: bool)
        requires
            self.wf(),
        ensures
            yes == self@.chunks.contains(chunk),
    {
        is_listed(&self.chunks, chunk)
    }

    /// The chunks that are laid out, ascending.
    pub fn resident_chunks(&self) -> (chunks: &Vec<usize>)
        requires
            self.wf(),
        ensures
            ascending(chunks@),
            chunks@.to_set() == self@.chunks,
            chunks@.len() == self@.chunks.len(),
    {
        proof {
            lemma_ascending_len(self.chunks@);
        }
        &self.chunks
    }

    /// The laid-out chunks in and next to the viewport, ascending.
    pub fn window(&self) -> (chunks: &Vec<usize>)
        requires
            self.wf(),
        ensures
            ascending(chunks@),
            chunks@.to_set() == self@.window,
            chunks@.len() == self@.window.len(),
    {
        proof {
            lemma_ascending_len(self.window@);
        }
        &self.window
    }

    /// Points the viewport at a place of the document. Another width drops every laid-out
    /// chunk: the answer is then yes, and the heights of all chunks are open until new
    /// estimates are handed in.
    pub fn begin_viewport(&mut self, width: u32, scroll_y: u32, height: u32) -> (reflow: bool)
        requires
            old(self).wf(),
            old(self)@.stats.evicted_total + old(self)@.chunks.len() <= usize::MAX,
        ensures
            final(self).wf(),
            reflow == !bits::float_eq(width, old(self)@.width),
            final(self)@ == old(self)@.at_viewport(width, scroll_y, height),
            final(self).chars() == old(self).chars(),
    {
        let reflow: bool = !bits::same(width, self.width);
        if reflow {
            self.width = width;
            self.invalidate_shaping();
        }
        self.scroll_y = scroll_y;
        self.viewport_h = height;
        self.stats.shaped_last = 0;
        assert(self@ =~= old(self)@.at_viewport(width, scroll_y, height));
        reflow
    }

    /// The chunks that the viewport shows, given where it ends.
    fn viewport_chunks(&self, bottom: u32) -> (range: (usize, usize))
        requires
            self.wf(),
        ensures
            range.0 <= range.1 < chunk_count(self@.bytes),
            edges_ascend(self@.tops) ==> (range.0 as int, range.1 as int) == viewport_range(
                self@.tops,
                self@.scroll_y,
                bottom,
            ),
    {
        proof {
            self.indexed.lemma_sizes();
        }
        let last: usize = self.heights.len() - 1;
        let edges: usize = self.tops.len();
        // The edge behind a chunk's top is its bottom.
        let ended: usize = count_before(&self.tops, 1, edges, self.scroll_y, false);
        let begun: usize = count_before(&self.tops, 0, edges - 1, bottom, true);
        let first: usize = if ended < last {
            ended
        } else {
            last
        };
        let end: usize = if begun == 0 || begun - 1 < first {
            first
        } else {
            begun - 1
        };
        (
            first,
            if end < last {
                end
            } else {
                last
            },
        )
    }

    /// What is to be laid out for the viewport, given where it ends.
    pub fn plan(&self, bottom: u32) -> (pass: Pass)
        requires
            self.wf(),
        ensures
            pass.first <= pass.last < chunk_count(self@.bytes),
            edges_ascend(self@.tops) ==> (pass.first as int, pass.last as int) == viewport_range(
                self@.tops,
                self@.scroll_y,
                bottom,
            ),
            pass.lo == if pass.first < WINDOW_CHUNKS {
                0
            } else {
                pass.first - WINDOW_CHUNKS
            },
            pass.hi == if pass.last + WINDOW_CHUNKS < chunk_count(self@.bytes) {
                pass.last + WINDOW_CHUNKS
            } else {
                chunk_count(self@.bytes) - 1
            },
            ascending(pass.missing@),
            forall|c: usize| #[trigger]
                pass.missing@.contains(c) <==> pass.lo <= c <= pass.hi && !self@.chunks.contains(c),
    {
        let count: usize = self.heights.len();
        let (first, last) = self.viewport_chunks(bottom);
        let lo: usize = first.saturating_sub(WINDOW_CHUNKS);
        let hi: usize = if count - last > WINDOW_CHUNKS {
            last + WINDOW_CHUNKS
        } else {
            count - 1
        };
        let mut missing: Vec<usize> = Vec::new();
        let mut chunk: usize = lo;
        while chunk <= hi
            invariant
                self.wf(),
                lo <= chunk <= hi + 1,
                hi < count,
                ascending(missing@),
                forall|k: int| 0 <= k < missing@.len() ==> #[trigger] missing@[k] < chunk,
                forall|c: usize| #[trigger]
                    missing@.contains(c) <==> lo <= c < chunk && !self@.chunks.contains(c),
            decreases hi + 1 - chunk,
        {
            if !is_listed(&self.chunks, chunk) {
                let ghost before = missing@;
                missing.push(chunk);
                assert forall|c: usize| #[trigger] missing@.contains(c) <==> lo <= c < chunk + 1
                    && !self@.chunks.contains(c) by {
                    lemma_push_contains(before, chunk, c);
                }
            }
            chunk = chunk + 1;
        }
        Pass { first, last, lo, hi, missing }
    }

    /// Takes the height of a chunk that was laid out. The answer is whether that moves the
    /// chunks below it.
    pub fn shaped(&mut self, chunk: usize, height: u32) -> (corrected: bool)
        requires
            old(self).wf(),
            chunk < chunk_count(old(self)@.bytes),
            !old(self)@.chunks.contains(chunk),
            old(self)@.stats.shaped_last < usize::MAX,
            old(self)@.stats.shaped_total < usize::MAX,
            old(self)@.stats.lines_shaped_total + CHUNK_LINES <= usize::MAX,
        ensures
            final(self).wf(),
            final(self)@ == old(self)@.with_chunk(chunk, height),
            corrected == !bits::float_eq(old(self)@.heights[chunk as int], height),
            final(self).chars() == old(self).chars(),
    {
        proof {
            self.indexed.lemma_sizes();
        }
        let count: usize = self.indexed.line_count();
        let first: usize = chunk * CHUNK_LINES;
        let span: usize = if count - first > CHUNK_LINES {
            CHUNK_LINES
        } else {
            count - first
        };
        self.stats.shaped_last = self.stats.shaped_last + 1;
        self.stats.shaped_total = self.stats.shaped_total + 1;
        self.stats.lines_shaped_total = self.stats.lines_shaped_total + span;
        put(&mut self.chunks, chunk);
        self.stats.resident_chunks = self.chunks.len();
        let corrected: bool = !bits::same(self.heights[chunk], height);
        self.heights.set(chunk, height);
        proof {
            assert(self@.chunks =~= old(self)@.chunks.insert(chunk)) by {
                assert forall|c: usize|
                    self@.chunks.contains(c) <==> old(self)@.chunks.insert(chunk).contains(c) by {
                    assert(self.chunks@.contains(c) <==> old(self).chunks@.contains(c) || c
                        == chunk);
                }
            }
            lemma_ascending_len(self.chunks@);
            assert(self@ =~= old(self)@.with_chunk(chunk, height));
        }
        corrected
    }

    /// Takes where all chunks now start.
    pub fn set_tops(&mut self, tops: Vec<u32>)
        requires
            old(self).wf(),
            tops@.len() == old(self)@.tops.len(),
        ensures
            final(self).wf(),
            final(self)@ == (DocState { tops: tops@, ..old(self)@ }),
            final(self).chars() == old(self).chars(),
    {
        self.tops = tops;
    }

    /// Ends a pass: the window is what is laid out of the pass's chunks. Where heights were
    /// corrected, and this was not the last pass, there is another one to make. Otherwise
    /// the chunks too far from the viewport are dropped, and so are those past the cap, the
    /// furthest first; they are handed back.
    pub fn finish_pass(&mut self, pass: &Pass, corrected: bool, number: usize) -> (dropped: Option<
        Vec<usize>,
    >)
        requires
            old(self).wf(),
            pass.first <= pass.last < chunk_count(old(self)@.bytes),
            pass.lo <= pass.hi < chunk_count(old(self)@.bytes),
            old(self)@.stats.evicted_total + old(self)@.chunks.len() <= usize::MAX,
        ensures
            final(self).wf(),
            final(self).chars() == old(self).chars(),
            dropped is None <==> corrected && number + 1 < PASSES,
            dropped is None ==> final(self)@ == old(self)@.with_window(
                pass.lo as int,
                pass.hi as int,
            ),
            dropped matches Some(chunks) ==> evicts(
                old(self)@.with_window(pass.lo as int, pass.hi as int),
                pass.first as int,
                pass.last as int,
                final(self)@,
            ) && forall|c: usize| #[trigger]
                chunks@.contains(c) <==> old(self)@.chunks.contains(c)
                    && !final(self)@.chunks.contains(c),
            dropped is Some ==> final(self)@.chunks.len() <= MAX_RESIDENT
                && final(self)@.stats.resident_chunks == final(self)@.chunks.len(),
    {
        proof {
            self.indexed.lemma_sizes();
        }
        self.window = keep(&self.chunks, pass.lo, pass.hi + 1);
        proof {
            let window = window_of(old(self)@.chunks, pass.lo as int, pass.hi as int);
            assert(self@.window =~= window) by {
                assert forall|c: usize| self@.window.contains(c) <==> window.contains(c) by {
                    assert(self.window@.contains(c) <==> old(self).chunks@.contains(c) && pass.lo
                        <= c < pass.hi + 1);
                }
            }
            assert(self@ =~= old(self)@.with_window(pass.lo as int, pass.hi as int));
        }
        if corrected && number == 0 {
            return None;
        }
        Some(self.evict(pass.first, pass.last))
    }

    /// Drops the chunks too far from the viewport, and the furthest ones if there are still
    /// too many.
    fn evict(&mut self, first: usize, last: usize) -> (dropped: Vec<usize>)
        requires
            old(self).wf(),
            first <= last < chunk_count(old(self)@.bytes),
            old(self)@.stats.evicted_total + old(self)@.chunks.len() <= usize::MAX,
        ensures
            final(self).wf(),
            final(self).chars() == old(self).chars(),
            evicts(old(self)@, first as int, last as int, final(self)@),
            forall|c: usize| #[trigger]
                dropped@.contains(c) <==> old(self)@.chunks.contains(c)
                    && !final(self)@.chunks.contains(c),
    {
        let ghost start = self@;
        let ghost near = retained(start.chunks, first as int, last as int);
        proof {
            self.indexed.lemma_sizes();
            lemma_ascending_len(self.chunks@);
            lemma_ascending_len(self.window@);
        }
        let keep_lo: usize = first.saturating_sub(RETAIN_CHUNKS);
        let near_list: Vec<usize> = keep(&self.chunks, keep_lo, last + RETAIN_CHUNKS + 1);
        let center: usize = first + (last - first) / 2;
        let mut from: usize = 0;
        let mut to: usize = near_list.len();
        proof {
            assert(near_list@.to_set() =~= near) by {
                assert forall|c: usize| near_list@.to_set().contains(c) <==> near.contains(c) by {
                    assert(near_list@.contains(c) <==> self.chunks@.contains(c) && keep_lo <= c
                        < last + RETAIN_CHUNKS + 1);
                }
            }
            lemma_ascending_len(near_list@);
        }
        while to - from > MAX_RESIDENT
            invariant
                from <= to <= near_list@.len(),
                ascending(near_list@),
                to - from >= MAX_RESIDENT || from == 0 && to == near_list@.len(),
                forall|k: int, d: int|
                    from <= k < to && (0 <= d < from || to <= d < near_list@.len()) ==> nearer(
                        #[trigger] near_list@[k],
                        #[trigger] near_list@[d],
                        center as int,
                    ),
            decreases to - from,
        {
            let low: usize = near_list[from];
            let high: usize = near_list[to - 1];
            let low_distance: usize = if low < center {
                center - low
            } else {
                low - center
            };
            let high_distance: usize = if high < center {
                center - high
            } else {
                high - center
            };
            if low_distance >= high_distance {
                assert forall|k: int| from + 1 <= k < to implies nearer(
                    #[trigger] near_list@[k],
                    low,
                    center as int,
                ) by {
                    assert(low < near_list@[k]);
                    assert(k < to - 1 ==> near_list@[k] < near_list@[to - 1]);
                }
                from = from + 1;
            } else {
                assert forall|k: int| from <= k < to - 1 implies nearer(
                    #[trigger] near_list@[k],
                    high,
                    center as int,
                ) by {
                    assert(near_list@[k] < high);
                    assert(from < k ==> near_list@[from as int] < near_list@[k]);
                }
                to = to - 1;
            }
        }
        let before: usize = self.chunks.len();
        let chunks: Vec<usize> = listed(&near_list, from, to);
        let kept: usize = chunks.len();
        let dropped: Vec<usize> = without(&self.chunks, &chunks);
        let window: Vec<usize> = common(&self.window, &chunks);
        proof {
            lemma_ascending_len(chunks@);
            assert(chunks@.to_set().subset_of(near)) by {
                assert forall|c: usize| chunks@.to_set().contains(c) implies near.contains(c) by {
                    assert(chunks@.contains(c));
                    let k = choose|k: int| 0 <= k < chunks@.len() && chunks@[k] == c;
                    assert(near_list@[from + k] == c);
                    assert(near_list@.contains(c));
                }
            }
            vstd::set_lib::lemma_len_subset(near, start.chunks);
            vstd::set_lib::lemma_len_subset(chunks@.to_set(), near);
        }
        self.stats.evicted_total = self.stats.evicted_total + (before - kept);
        self.stats.resident_chunks = kept;
        self.chunks = chunks;
        self.window = window;
        proof {
            let after = self@;
            assert(after.window =~= start.window.intersect(after.chunks)) by {
                assert forall|c: usize|
                    after.window.contains(c) <==> start.window.intersect(
                        after.chunks,
                    ).contains(c) by {
                    assert(window@.contains(c) <==> old(self).window@.contains(c)
                        && chunks@.contains(c));
                }
            }
            assert forall|k: usize, d: usize| #[trigger]
                after.chunks.contains(k) && #[trigger] near.contains(d) && !after.chunks.contains(
                    d,
                ) implies nearer(k, d, (first + last) / 2) by {
                assert(chunks@.contains(k));
                assert(near_list@.to_set().contains(d));
                assert(near_list@.contains(d));
                let i = choose|i: int| 0 <= i < chunks@.len() && chunks@[i] == k;
                let j = choose|j: int| 0 <= j < near_list@.len() && near_list@[j] == d;
                assert(near_list@[from + i] == k);
                if from <= j < to {
                    assert(chunks@[j - from] == d);
                    assert(chunks@.contains(d));
                }
            }
            assert(after =~= DocState {
                chunks: after.chunks,
                window: start.window.intersect(after.chunks),
                stats: DocStats {
                    evicted_total: (start.stats.evicted_total + start.chunks.len()
                        - after.chunks.len()) as usize,
                    resident_chunks: after.chunks.len() as usize,
                    ..start.stats
                },
                ..start
            });
            assert forall|c: usize| #[trigger] dropped@.contains(c) <==> start.chunks.contains(c)
                && !after.chunks.contains(c) by {
                assert(dropped@.contains(c) <==> old(self).chunks@.contains(c)
                    && !chunks@.contains(c));
            }
        }
        dropped
    }

    /// The byte offset of a cursor.
    pub fn offset_of(&self, cursor: DocCursor) -> (offset: usize)
        requires
            self.wf(),
            lines::line_start(self@.bytes, indexed::clamped(self@.bytes, cursor.line))
                + cursor.byte <= usize::MAX,
        ensures
            offset == offset_of(self@.bytes, cursor),
    {
        self.indexed.offset_of(cursor)
    }

    /// The cursor at a byte offset.
    pub fn cursor_at_offset(&self, offset: usize) -> (cursor: DocCursor)
        requires
            self.wf(),
        ensures
            cursor == cursor_at(self@.bytes, offset as int),
    {
        self.indexed.cursor_at_offset(offset)
    }

    /// The text between two cursors, in any order.
    pub fn text_between(&self, a: DocCursor, b: DocCursor) -> (text: String)
        requires
            self.wf(),
            lines::line_start(self@.bytes, indexed::clamped(self@.bytes, a.line)) + a.byte
                <= usize::MAX,
            lines::line_start(self@.bytes, indexed::clamped(self@.bytes, b.line)) + b.byte
                <= usize::MAX,
            a.at_most(b) ==> offset_of(self@.bytes, a) <= offset_of(self@.bytes, b),
            !a.at_most(b) ==> offset_of(self@.bytes, b) <= offset_of(self@.bytes, a),
            is_char_boundary(self@.bytes, offset_of(self@.bytes, a)),
            is_char_boundary(self@.bytes, offset_of(self@.bytes, b)),
        ensures
            encode_utf8(text@) == indexed::between(self@.bytes, a, b),
    {
        self.indexed.text_between(a, b)
    }

    /// Every occurrence of the needle in the whole text, laid out or not. Matches may span
    /// lines.
    pub fn find_all(&self, needle: &str) -> (found: Vec<(DocCursor, DocCursor)>)
        requires
            self.wf(),
        ensures
            found@ == indexed::occurrences(self@.bytes, encode_utf8(needle@)),
    {
        self.indexed.find_all(needle)
    }

    /// The chunk of the window closest to a point, given how far each one is from it: the
    /// first of the closest ones, nothing where nothing is laid out.
    pub fn nearest_chunk(&self, distances: &Vec<u32>) -> (chunk: Option<usize>)
        requires
            self.wf(),
            distances@.len() == self@.window.len(),
        ensures
            chunk is None <==> self@.window.len() == 0,
            chunk matches Some(c) ==> exists|list: Seq<usize>, i: int|
                ascending(list) && list.to_set() == self@.window && list.len()
                    == distances@.len() && 0 <= i < list.len() && c == #[trigger] list[i]
                    && is_first_least(distances@, i),
    {
        proof {
            lemma_ascending_len(self.window@);
        }
        if self.window.len() == 0 {
            return None;
        }
        let at: usize = first_least(distances);
        assert(ascending(self.window@) && self.window@.to_set() == self@.window
            && is_first_least(distances@, at as int));
        Some(self.window[at])
    }

    /// The part of a selection that lies in a chunk, in lines of that chunk; nothing where
    /// it does not reach into it.
    pub fn selection_in_chunk(&self, chunk: usize, a: DocCursor, b: DocCursor) -> (span: Option<
        (DocCursor, DocCursor),
    >)
        requires
            self.wf(),
            chunk < chunk_count(self@.bytes),
        ensures
            span == chunk_span(
                self@.bytes,
                chunk as int,
                if a.at_most(b) {
                    a
                } else {
                    b
                },
                if a.at_most(b) {
                    b
                } else {
                    a
                },
            ),
    {
        let (start, end) = order(a, b);
        proof {
            self.indexed.lemma_sizes();
        }
        let count: usize = self.indexed.line_count();
        let first: usize = chunk * CHUNK_LINES;
        let last: usize = if count - first > CHUNK_LINES {
            first + CHUNK_LINES
        } else {
            count
        };
        if start.line >= last || end.line < first {
            return None;
        }
        let local_a: DocCursor = if start.line < first {
            DocCursor::new(0, 0)
        } else {
            DocCursor::new(start.line - first, start.byte)
        };
        let local_b: DocCursor = if end.line >= last {
            let (from, to) = self.indexed.line_bounds(last - 1);
            DocCursor::new(last - 1 - first, to - from)
        } else {
            DocCursor::new(end.line - first, end.byte)
        };
        Some((local_a, local_b))
    }

    /// A cursor in a chunk as one in the document.
    pub fn to_doc(&self, chunk: usize, line: usize, byte: usize) -> (cursor: DocCursor)
        requires
            chunk * CHUNK_LINES + line <= usize::MAX,
        ensures
            cursor.line == chunk * CHUNK_LINES + line,
            cursor.byte == byte,
    {
        DocCursor::new(chunk * CHUNK_LINES + line, byte)
    }
}

/// The part of a selection that lies in a chunk, in lines of that chunk.
pub open spec fn chunk_span(bytes: Seq<u8>, chunk: int, start: DocCursor, end: DocCursor) -> Option<
    (DocCursor, DocCursor),
> {
    let first = chunk_first(bytes, chunk);
    let last = chunk_end(bytes, chunk);
    if last == first || start.line >= last || end.line < first {
        None
    } else {
        Some(
            (
                if start.line < first {
                    DocCursor { line: 0, byte: 0 }
                } else {
                    DocCursor { line: (start.line - first) as usize, byte: start.byte }
                },
                if end.line >= last {
                    DocCursor {
                        line: (last - 1 - first) as usize,
                        byte: lines::line_bytes(bytes, last - 1).len() as usize,
                    }
                } else {
                    DocCursor { line: (end.line - first) as usize, byte: end.byte }
                },
            ),
        )
    }
}

/// The number is the least one, and the first that is.
pub open spec fn is_first_least(list: Seq<u32>, at: int) -> bool {
    &&& 0 <= at < list.len()
    &&& forall|i: int| 0 <= i < list.len() ==> list[at] <= #[trigger] list[i]
    &&& forall|i: int| 0 <= i < at ==> list[at] < #[trigger] list[i]
}

/// Where the least number of a list is, the first one of equals.
fn first_least(list: &Vec<u32>) -> (at: usize)
    requires
        list@.len() > 0,
    ensures
        is_first_least(list@, at as int),
{
    let mut at: usize = 0;
    let mut i: usize = 1;
    while i < list.len()
        invariant
            1 <= i <= list@.len(),
            0 <= at < i,
            forall|k: int| 0 <= k < i ==> list@[at as int] <= #[trigger] list@[k],
            forall|k: int| 0 <= k < at ==> list@[at as int] < #[trigger] list@[k],
        decreases list@.len() - i,
    {
        if list[i] < list[at] {
            at = i;
        }
        i = i + 1;
    }
    at
}

/// The part `from..to` of a list.
fn listed(list: &Vec<usize>, from: usize, to: usize) -> (part: Vec<usize>)
    requires
        from <= to <= list@.len(),
        ascending(list@),
    ensures
        part@ == list@.subrange(from as int, to as int),
        ascending(part@),
{
    let mut part: Vec<usize> = Vec::new();
    let mut i: usize = from;
    while i < to
        invariant
            from <= i <= to <= list@.len(),
            part@ == list@.subrange(from as int, i as int),
        decreases to - i,
    {
        part.push(list[i]);
        i = i + 1;
        assert(part@ =~= list@.subrange(from as int, i as int));
    }
    part
}

/// What the first list holds and the second one does not.
fn without(list: &Vec<usize>, other: &Vec<usize>) -> (rest: Vec<usize>)
    requires
        ascending(other@),
    ensures
        forall|c: usize| #[trigger]
            rest@.contains(c) <==> list@.contains(c) && !other@.contains(c),
{
    let mut rest: Vec<usize> = Vec::new();
    let mut i: usize = 0;
    while i < list.len()
        invariant
            i <= list@.len(),
            ascending(other@),
            forall|c: usize| #[trigger]
                rest@.contains(c) <==> list@.take(i as int).contains(c) && !other@.contains(c),
        decreases list@.len() - i,
    {
        let c: usize = list[i];
        let ghost before = rest@;
        let ghost seen = list@.take(i as int);
        assert(list@.take(i + 1) =~= seen.push(c));
        if !is_listed(other, c) {
            rest.push(c);
        }
        i = i + 1;
        assert forall|x: usize| #[trigger] rest@.contains(x) <==> list@.take(i as int).contains(x)
            && !other@.contains(x) by {
            lemma_push_contains(seen, c, x);
            lemma_push_contains(before, c, x);
            assert(before.contains(x) <==> seen.contains(x) && !other@.contains(x));
        }
    }
    assert(list@.take(i as int) =~= list@);
    rest
}

/// What both lists hold.
fn common(list: &Vec<usize>, other: &Vec<usize>) -> (both: Vec<usize>)
    requires
        ascending(list@),
        ascending(other@),
    ensures
        ascending(both@),
        forall|c: usize| #[trigger]
            both@.contains(c) <==> list@.contains(c) && other@.contains(c),
{
    let mut both: Vec<usize> = Vec::new();
    let mut i: usize = 0;
    while i < list.len()
        invariant
            i <= list@.len(),
            ascending(list@),
            ascending(other@),
            ascending(both@),
            forall|k: int| 0 <= k < both@.len() ==> list@.take(i as int).contains(#[trigger] both@[k]),
            forall|c: usize| #[trigger]
                both@.contains(c) <==> list@.take(i as int).contains(c) && other@.contains(c),
        decreases list@.len() - i,
    {
        let c: usize = list[i];
        let ghost before = both@;
        let ghost seen = list@.take(i as int);
        assert(list@.take(i + 1) =~= seen.push(c));
        if is_listed(other, c) {
            assert forall|k: int| 0 <= k < before.len() implies #[trigger] before[k] < c by {
                let j = choose|j: int| 0 <= j < seen.len() && seen[j] == before[k];
                assert(list@[j] < list@[i as int]);
            }
            both.push(c);
        }
        i = i + 1;
        assert forall|x: usize| #[trigger] both@.contains(x) <==> list@.take(i as int).contains(x)
            && other@.contains(x) by {
            lemma_push_contains(seen, c, x);
            lemma_push_contains(before, c, x);
            assert(before.contains(x) <==> seen.contains(x) && other@.contains(x));
        }
        assert forall|k: int| 0 <= k < both@.len() implies list@.take(i as int).contains(
            #[trigger] both@[k],
        ) by {
            assert(both@.contains(both@[k]));
        }
    }
    assert(list@.take(i as int) =~= list@);
    both
}

/// An offset clamps its cursor: a cursor that names a byte of the text is that far behind
/// the start of its line, one past the end of its line is at the end, and one past the last
/// line is on it.
pub proof fn lemma_offset_clamps(bytes: Seq<u8>, cursor: DocCursor)
    ensures
        is_exact(bytes, cursor) ==> offset_of(bytes, cursor) == lines::line_start(
            bytes,
            cursor.line as int,
        ) + cursor.byte,
        cursor.line < lines::line_count(bytes) && !is_exact(bytes, cursor) ==> offset_of(
            bytes,
            cursor,
        ) == lines::line_end(bytes, cursor.line as int),
        cursor.line >= lines::line_count(bytes) ==> offset_of(bytes, cursor) == offset_of(
            bytes,
            DocCursor { line: (lines::line_count(bytes) - 1) as usize, byte: cursor.byte },
        ),
{
    lines::lemma_starts(bytes);
}

/// Another text leaves the laid-out chunks in front of the first changed one, with their
/// heights, and drops all others, which are counted; the viewport stays, and nothing counts
/// as laid out for it.
#[verifier::spinoff_prover]
pub proof fn lemma_text_drops_changed_chunks(state: DocState, bytes: Seq<u8>, first: int, c: usize)
    requires
        state.valid(),
        0 <= first,
        state.stats.evicted_total + state.chunks.len() <= usize::MAX,
    ensures
        ({
            let after = state.with_text(bytes, first);
            &&& after.bytes == bytes
            &&& after.chunks.contains(c) <==> state.chunks.contains(c) && c < first
            &&& after.window.contains(c) <==> state.window.contains(c) && c < first
            &&& c < first && c < after.heights.len() ==> after.heights[c as int]
                == state.heights[c as int]
            &&& after.heights.len() == chunk_count(bytes)
            &&& after.tops.len() == chunk_count(bytes) + 1
            &&& after.width == state.width
            &&& after.scroll_y == state.scroll_y
            &&& after.viewport_h == state.viewport_h
            &&& after.stats.resident_chunks == after.chunks.len()
            &&& after.stats.evicted_total + after.chunks.len() == state.stats.evicted_total
                + state.chunks.len()
            &&& after.stats.shaped_last == state.stats.shaped_last
            &&& after.stats.shaped_total == state.stats.shaped_total
            &&& after.stats.lines_shaped_total == state.stats.lines_shaped_total
        }),
{
    let kept = state.chunks.filter(|c: usize| c < first);
    vstd::set_lib::lemma_len_subset(kept, state.chunks);
}

/// Moving the viewport leaves the text, and as long as the width stays equal every laid-out
/// chunk and every height; another width is taken over and drops all of them.
#[verifier::spinoff_prover]
pub proof fn lemma_viewport_moves(state: DocState, width: u32, scroll_y: u32, height: u32)
    requires
        state.valid(),
        state.stats.evicted_total + state.chunks.len() <= usize::MAX,
    ensures
        ({
            let after = state.at_viewport(width, scroll_y, height);
            &&& after.bytes == state.bytes
            &&& after.scroll_y == scroll_y
            &&& after.viewport_h == height
            &&& after.stats.shaped_last == 0
            &&& after.stats.shaped_total == state.stats.shaped_total
            &&& after.stats.lines_shaped_total == state.stats.lines_shaped_total
            &&& after.stats.evicted_total + after.chunks.len() == state.stats.evicted_total
                + state.chunks.len()
            &&& bits::float_eq(width, state.width) ==> after.width == state.width && after.chunks
                == state.chunks && after.window == state.window && after.heights == state.heights
                && after.tops == state.tops
            &&& !bits::float_eq(width, state.width) ==> after.width == width
                && after.chunks.len() == 0 && after.window.len() == 0
        }),
{
    if !bits::float_eq(width, state.width) {
        let wide = DocState { width, ..state };
        assert forall|c: usize| !wide.with_text(state.bytes, 0).chunks.contains(c) by {
            lemma_text_drops_changed_chunks(wide, state.bytes, 0, c);
        }
        lemma_text_drops_changed_chunks(wide, state.bytes, 0, 0);
        assert(wide.with_text(state.bytes, 0).chunks =~= Set::<usize>::empty());
        assert(wide.with_text(state.bytes, 0).window =~= Set::<usize>::empty());
    }
}

/// An append starts anew at the chunk that the last line is in: that line is one of the
/// chunk's, and every chunk that ends before the line, with what is laid out of it, stays.
pub proof fn lemma_append_starts_at_last_line(state: DocState, more: Seq<u8>, chunk: usize)
    ensures
        ({
            let dirty = state.append_chunk();
            let last = lines::line_count(state.bytes) - 1;
            let after = state.with_text(state.bytes + more, dirty);
            &&& dirty * CHUNK_LINES <= last < (dirty + 1) * CHUNK_LINES
            &&& (chunk + 1) * CHUNK_LINES <= last && state.chunks.contains(chunk)
                ==> after.chunks.contains(chunk)
            &&& (chunk + 1) * CHUNK_LINES > last ==> !after.chunks.contains(chunk)
        }),
{
    let dirty = state.append_chunk();
    let last = lines::line_count(state.bytes) - 1;
    assert(dirty * CHUNK_LINES <= last < (dirty + 1) * CHUNK_LINES);
    assert((chunk + 1) * CHUNK_LINES <= last <==> chunk < dirty);
}

/// A chunk that is laid out is there from then on with its height, and is counted once, with
/// all its lines; no other chunk changes.
pub proof fn lemma_chunk_counted(state: DocState, chunk: usize, height: u32, other: usize)
    requires
        state.valid(),
        chunk < chunk_count(state.bytes),
        !state.chunks.contains(chunk),
        state.stats.shaped_last < usize::MAX,
        state.stats.shaped_total < usize::MAX,
        state.stats.lines_shaped_total + CHUNK_LINES <= usize::MAX,
        state.chunks.len() < usize::MAX,
    ensures
        ({
            let after = state.with_chunk(chunk, height);
            &&& after.chunks.contains(chunk)
            &&& after.heights[chunk as int] == height
            &&& other != chunk ==> after.chunks.contains(other) == state.chunks.contains(other)
            &&& other != chunk && other < state.heights.len() ==> after.heights[other as int]
                == state.heights[other as int]
            &&& after.heights.len() == state.heights.len()
            &&& after.bytes == state.bytes
            &&& after.tops == state.tops
            &&& after.window == state.window
            &&& after.stats.resident_chunks == state.chunks.len() + 1
            &&& after.stats.shaped_last == state.stats.shaped_last + 1
            &&& after.stats.shaped_total == state.stats.shaped_total + 1
            &&& after.stats.lines_shaped_total == state.stats.lines_shaped_total
                + lines::line_count(chunk_bytes(state.bytes, chunk as int))
            &&& after.stats.evicted_total == state.stats.evicted_total
        }),
{
    lemma_chunks_partition_lines(state.bytes, 0, chunk as int);
    lines::lemma_starts(state.bytes);
    lemma_chunk_lines_line_up(state.bytes, chunk as int, 0);
}

/// The range of the viewport holds no chunk without need: its first chunk ends behind the
/// top of the viewport, unless it is the last one of the document, and its last one starts
/// before the bottom, unless it is the first one of the range.
#[verifier::spinoff_prover]
pub proof fn lemma_range_is_tight(tops: Seq<u32>, scroll_y: u32, bottom: u32)
    requires
        2 <= tops.len(),
        edges_ascend(tops),
    ensures
        ({
            let (first, last) = viewport_range(tops, scroll_y, bottom);
            &&& 0 <= first <= last < tops.len() - 1
            &&& first == tops.len() - 2 || !(bits::float_lt(tops[first + 1], scroll_y)
                || bits::float_eq(tops[first + 1], scroll_y))
            &&& last == first || bits::float_lt(tops[last], bottom)
            &&& forall|c: int|
                0 < c <= first ==> bits::float_lt(#[trigger] tops[c], scroll_y) || bits::float_eq(
                    tops[c],
                    scroll_y,
                )
        }),
{
    let ends = tops.subrange(1, tops.len() as int);
    let begins = tops.subrange(0, tops.len() - 1);
    lemma_edges_before_bounds(ends, scroll_y, false);
    lemma_edges_before_bounds(begins, bottom, true);
    let ended = edges_before(ends, scroll_y, false);
    let (first, last) = viewport_range(tops, scroll_y, bottom);
    if first < tops.len() - 2 {
        assert(ended == first);
        assert(ends[first] == tops[first + 1]);
    }
    if last != first {
        assert(begins[last] == tops[last]);
    }
    assert forall|c: int| 0 < c <= first implies bits::float_lt(#[trigger] tops[c], scroll_y)
        || bits::float_eq(tops[c], scroll_y) by {
        assert(ends[c - 1] == tops[c]);
    }
}

/// An eviction drops every chunk more than three away from the viewport and leaves at most
/// sixteen; while no more than those are near enough it drops no other, and past them it
/// drops those furthest from the middle of the viewport. Nothing else changes, and what is
/// dropped is counted.
#[verifier::spinoff_prover]
pub proof fn lemma_eviction(before: DocState, first: int, last: int, after: DocState, c: usize)
    requires
        before.valid(),
        0 <= first <= last < chunk_count(before.bytes),
        before.stats.evicted_total + before.chunks.len() <= usize::MAX,
        evicts(before, first, last, after),
    ensures
        after.chunks.len() <= 16,
        after.chunks.contains(c) ==> before.chunks.contains(c) && first - 3 <= c <= last + 3,
        before.chunks.len() <= 16 && before.chunks.contains(c) && first - 3 <= c <= last + 3
            ==> after.chunks.contains(c),
        after.window.contains(c) <==> before.window.contains(c) && after.chunks.contains(c),
        after.stats.evicted_total + after.chunks.len() == before.stats.evicted_total
            + before.chunks.len(),
        after.stats.resident_chunks == after.chunks.len(),
        after.bytes == before.bytes,
        after.heights == before.heights,
        after.tops == before.tops,
        after.scroll_y == before.scroll_y,
        after.viewport_h == before.viewport_h,
        after.width == before.width,
        after.stats.shaped_total == before.stats.shaped_total,
        after.stats.shaped_last == before.stats.shaped_last,
        forall|k: usize, d: usize| #[trigger]
            after.chunks.contains(k) && #[trigger] before.chunks.contains(d)
                && !after.chunks.contains(d) && first - 3 <= d <= last + 3 ==> {
                let middle = (first + last) / 2;
                let to_kept = if k < middle {
                    middle - k
                } else {
                    k - middle
                };
                let to_dropped = if d < middle {
                    middle - d
                } else {
                    d - middle
                };
                to_kept <= to_dropped
            },
{
    let near = retained(before.chunks, first, last);
    vstd::set_lib::lemma_len_subset(near, before.chunks);
    vstd::set_lib::lemma_len_subset(after.chunks, near);
    if before.chunks.len() <= 16 {
        assert(after.chunks.len() == near.len());
        vstd::set_lib::lemma_subset_equality(after.chunks, near);
    }
    assert forall|k: usize, d: usize| #[trigger]
        after.chunks.contains(k) && #[trigger] before.chunks.contains(d)
            && !after.chunks.contains(d) && first - 3 <= d <= last + 3 implies {
        let middle = (first + last) / 2;
        let to_kept = if k < middle {
            middle - k
        } else {
            k - middle
        };
        let to_dropped = if d < middle {
            middle - d
        } else {
            d - middle
        };
        to_kept <= to_dropped
    } by {
        assert(near.contains(d));
        assert(nearer(k, d, (first + last) / 2));
    }
}

/// The part of a selection in a chunk is the selection, seen from the chunk: a place of the
/// chunk is between its two ends exactly where the place of the document that it stands for
/// is between the two ends of the selection, and there is no such part exactly where no line
/// of the chunk is selected.
#[verifier::spinoff_prover]
pub proof fn lemma_chunk_span(
    bytes: Seq<u8>,
    chunk: int,
    start: DocCursor,
    end: DocCursor,
    line: usize,
    byte: usize,
)
    requires
        0 <= chunk < chunk_count(bytes),
        bytes.len() <= u32::MAX,
        bytes.len() < usize::MAX,
        start.at_most(end),
        chunk * CHUNK_LINES + line < lines::line_count(bytes),
        line < CHUNK_LINES,
        byte <= lines::line_bytes(bytes, chunk * CHUNK_LINES + line).len(),
    ensures
        ({
            let at = DocCursor { line: (chunk * CHUNK_LINES + line) as usize, byte };
            let here = DocCursor { line, byte };
            match chunk_span(bytes, chunk, start, end) {
                None => !(start.line <= at.line <= end.line),
                Some((from, to)) => start.at_most(at) && at.at_most(end) <==> from.at_most(here)
                    && here.at_most(to),
            }
        }),
{
    lines::lemma_starts(bytes);
    lemma_chunks_partition_lines(bytes, chunk * CHUNK_LINES + line, chunk);
    let last = chunk_end(bytes, chunk);
    lines::lemma_line_bounds(bytes, last - 1);
    lines::lemma_line_bounds(bytes, chunk * CHUNK_LINES + line);
}

/// The window is the laid-out chunks between two, and moving it changes nothing else.
pub proof fn lemma_window(state: DocState, lo: int, hi: int, c: usize)
    ensures
        state.with_window(lo, hi).window.contains(c) <==> state.chunks.contains(c) && lo <= c
            <= hi,
        state.with_window(lo, hi).chunks == state.chunks,
        state.with_window(lo, hi).stats == state.stats,
        state.with_window(lo, hi).heights == state.heights,
        state.with_window(lo, hi).tops == state.tops,
        state.with_window(lo, hi).bytes == state.bytes,
{
}

/// An offset past the end of the text is its end.
pub proof fn lemma_cursor_clamps(bytes: Seq<u8>, offset: int)
    requires
        offset >= bytes.len(),
    ensures
        cursor_at(bytes, offset) == cursor_at(bytes, bytes.len() as int),
{
}

} // verus!
