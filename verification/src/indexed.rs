//! A text with its line index, which grows with the text.
use crate::document::{order, DocCursor};
use crate::document;
use crate::lines::NEWLINE;
use crate::lines;
use crate::search;
use crate::text;
use vstd::prelude::*;
use vstd::string::*;
use vstd::utf8::*;

verus! {

broadcast use vstd::string::to_string_from_display_ensures_for_str;

/// A text, with the start and the character count of every line.
pub struct IndexedText {
    text: String,
    /// The byte offset of every line start. Always begins with 0.
    line_starts: Vec<u32>,
    /// The character count of every line, so that estimates of its height can be made
    /// again without touching the text.
    line_cols: Vec<u32>,
}

impl View for IndexedText {
    type V = Seq<u8>;

    closed spec fn view(&self) -> Seq<u8> {
        encode_utf8(self.text@)
    }
}

impl IndexedText {
    /// The characters.
    pub closed spec fn chars(&self) -> Seq<char> {
        self.text@
    }

    /// The index is that of the text, and its offsets fit.
    pub closed spec fn wf(&self) -> bool {
        &&& self@.len() <= u32::MAX
        &&& self@.len() <= usize::MAX
        &&& lines::line_count(self@) <= usize::MAX
        &&& self.line_starts@.len() == lines::line_count(self@)
        &&& self.line_cols@.len() == lines::line_count(self@)
        &&& forall|k: int|
            0 <= k < lines::line_count(self@) ==> #[trigger] self.line_starts@[k]
                == lines::line_start(self@, k)
        &&& forall|k: int|
            0 <= k < lines::line_count(self@) ==> #[trigger] self.line_cols@[k]
                == lines::line_cols(self@, k)
    }

    /// The bytes are those of the characters.
    pub proof fn lemma_valid(&self)
        ensures
            valid_utf8(self@),
            self@ == encode_utf8(self.chars()),
    {
        encode_utf8_valid_utf8(self.text@);
    }

    /// What the invariant says of sizes.
    pub proof fn lemma_sizes(&self)
        requires
            self.wf(),
        ensures
            self@.len() <= u32::MAX,
            self@.len() <= usize::MAX,
            1 <= lines::line_count(self@) <= usize::MAX,
            lines::line_count(self@) <= self@.len() + 1,
    {
        lines::lemma_starts(self@);
    }

    /// An empty text, which is one line.
    pub fn new() -> (indexed: IndexedText)
        ensures
            indexed.wf(),
            indexed@ == Seq::<u8>::empty(),
            indexed.chars() == Seq::<char>::empty(),
    {
        let mut line_starts: Vec<u32> = Vec::new();
        let mut line_cols: Vec<u32> = Vec::new();
        line_starts.push(0);
        line_cols.push(0);
        let indexed = IndexedText { text: String::new(), line_starts, line_cols };
        assert(indexed.text@ =~= Seq::<char>::empty());
        assert(lines::starts(indexed@) =~= seq![0int]);
        assert(lines::line_bytes(indexed@, 0) =~= Seq::<u8>::empty());
        indexed
    }

    /// The whole text.
    pub fn text(&self) -> (text: &str)
        ensures
            text@ == self.chars(),
            encode_utf8(text@) == self@,
    {
        self.text.as_str()
    }

    /// The number of lines.
    pub fn line_count(&self) -> (n: usize)
        requires
            self.wf(),
        ensures
            n == lines::line_count(self@),
    {
        self.line_starts.len()
    }

    /// The length in bytes.
    pub fn len(&self) -> (n: usize)
        requires
            self.wf(),
        ensures
            n == self@.len(),
    {
        self.text.as_str().as_bytes().len()
    }

    /// The byte range of a line, without its newline.
    pub fn line_bounds(&self, line: usize) -> (bounds: (usize, usize))
        requires
            self.wf(),
            line < lines::line_count(self@),
        ensures
            bounds.0 == lines::line_start(self@, line as int),
            bounds.1 == lines::line_end(self@, line as int),
            bounds.0 <= bounds.1 <= self@.len(),
    {
        proof {
            lines::lemma_line_bounds(self@, line as int);
        }
        let start: usize = self.line_starts[line] as usize;
        let end: usize = if line < self.line_starts.len() - 1 {
            // Every line start but the first sits one byte past a newline.
            assert(self.line_starts@[line + 1] == lines::line_start(self@, line + 1));
            self.line_starts[line + 1] as usize - 1
        } else {
            self.text.as_str().as_bytes().len()
        };
        (start, end)
    }

    /// The characters of a line.
    pub fn cols(&self, line: usize) -> (n: u32)
        requires
            self.wf(),
            line < lines::line_count(self@),
        ensures
            n == lines::line_cols(self@, line as int),
    {
        self.line_cols[line]
    }

    /// A part of the text that starts and ends between characters.
    pub fn part(&self, from: usize, to: usize) -> (part: &str)
        requires
            from <= to <= self@.len(),
            is_char_boundary(self@, from as int),
            is_char_boundary(self@, to as int),
        ensures
            encode_utf8(part@) == self@.subrange(from as int, to as int),
    {
        text::slice(self.text.as_str(), from, to)
    }

    /// One line's text, without its newline.
    pub fn line(&self, line: usize) -> (text: &str)
        requires
            self.wf(),
            line < lines::line_count(self@),
        ensures
            encode_utf8(text@) == lines::line_bytes(self@, line as int),
    {
        let (start, end) = self.line_bounds(line);
        proof {
            self.lemma_valid();
            lines::lemma_line_boundaries(self@, line as int);
        }
        self.part(start, end)
    }

    /// Extends the line starts over the bytes from `from` on, which are new.
    fn scan(&mut self, from: usize, total: usize)
        requires
            from <= total == old(self)@.len() <= u32::MAX,
            old(self).line_starts@.len() == lines::line_count(old(self)@.take(from as int)),
            forall|k: int|
                0 <= k < old(self).line_starts@.len() ==> #[trigger] old(self).line_starts@[k]
                    == lines::line_start(old(self)@.take(from as int), k),
        ensures
            final(self).text == old(self).text,
            final(self).line_cols == old(self).line_cols,
            final(self).line_starts@.len() == lines::line_count(final(self)@),
            forall|k: int|
                0 <= k < final(self).line_starts@.len() ==> #[trigger] final(self).line_starts@[k]
                    == lines::line_start(final(self)@, k),
    {
        let mut i: usize = from;
        while i < total
            invariant
                from <= i <= total,
                total == self@.len() <= u32::MAX,
                self.text == old(self).text,
                self.line_cols == old(self).line_cols,
                self.line_starts@.len() == lines::line_count(self@.take(i as int)),
                forall|k: int|
                    0 <= k < self.line_starts@.len() ==> #[trigger] self.line_starts@[k]
                        == lines::line_start(self@.take(i as int), k),
            decreases total - i,
        {
            assert(self@.take(i + 1).drop_last() =~= self@.take(i as int));
            if self.text.as_str().as_bytes()[i] == NEWLINE {
                self.line_starts.push(i as u32 + 1);
            }
            i = i + 1;
        }
        assert(self@.take(i as int) =~= self@);
    }

    /// Counts the characters of the lines from `first` on.
    fn recount(&mut self, first: usize)
        requires
            old(self)@.len() <= u32::MAX,
            old(self)@.len() <= usize::MAX,
            first < lines::line_count(old(self)@),
            old(self).line_starts@.len() == lines::line_count(old(self)@),
            forall|k: int|
                0 <= k < old(self).line_starts@.len() ==> #[trigger] old(self).line_starts@[k]
                    == lines::line_start(old(self)@, k),
            old(self).line_cols@.len() >= first,
            forall|k: int|
                0 <= k < first ==> #[trigger] old(self).line_cols@[k] == lines::line_cols(
                    old(self)@,
                    k,
                ),
        ensures
            final(self).text == old(self).text,
            final(self).wf(),
    {
        self.line_cols.truncate(first);
        let count: usize = self.line_starts.len();
        let mut line: usize = first;
        while line < count
            invariant
                first <= line <= count,
                count == lines::line_count(self@),
                self.text == old(self).text,
                self@.len() <= u32::MAX,
                self@.len() <= usize::MAX,
                self.line_starts@.len() == lines::line_count(self@),
                forall|k: int|
                    0 <= k < self.line_starts@.len() ==> #[trigger] self.line_starts@[k]
                        == lines::line_start(self@, k),
                self.line_cols@.len() == line,
                forall|k: int|
                    0 <= k < line ==> #[trigger] self.line_cols@[k] == lines::line_cols(self@, k),
            decreases count - line,
        {
            proof {
                self.lemma_valid();
                lines::lemma_line_bounds(self@, line as int);
                lines::lemma_line_boundaries(self@, line as int);
            }
            let start: usize = self.line_starts[line] as usize;
            let end: usize = if line < count - 1 {
                assert(self.line_starts@[line + 1] == lines::line_start(self@, line + 1));
                self.line_starts[line + 1] as usize - 1
            } else {
                self.text.as_str().as_bytes().len()
            };
            let part: &str = text::slice(self.text.as_str(), start, end);
            let n: usize = text::char_len(part);
            proof {
                encode_utf8_decode_utf8(part@);
                text::lemma_no_more_chars_than_bytes(part@);
            }
            self.line_cols.push(n as u32);
            line = line + 1;
        }
    }

    /// Replaces the whole text.
    pub fn set_text(&mut self, text: &str)
        requires
            encode_utf8(text@).len() <= u32::MAX,
        ensures
            final(self).wf(),
            final(self)@ == encode_utf8(text@),
            final(self).chars() == text@,
    {
        self.text = text.to_owned();
        let total: usize = text.as_bytes().len();
        self.line_starts.clear();
        self.line_starts.push(0);
        self.line_cols.clear();
        assert(self@.take(0) =~= Seq::<u8>::empty());
        assert(lines::starts(self@.take(0)) =~= seq![0int]);
        self.scan(0, total);
        proof {
            lines::lemma_starts(self@);
        }
        self.recount(0);
    }

    /// Appends to the text, extending the index over what is new only.
    pub fn append(&mut self, text: &str)
        requires
            old(self).wf(),
            old(self)@.len() + encode_utf8(text@).len() <= u32::MAX,
        ensures
            final(self).wf(),
            final(self)@ == old(self)@ + encode_utf8(text@),
            final(self).chars() == old(self).chars() + text@,
    {
        let ghost before = self@;
        let from: usize = self.text.as_str().as_bytes().len();
        self.text.append(text);
        proof {
            lines::lemma_starts(before);
        }
        let first: usize = self.line_starts.len() - 1;
        proof {
            text::lemma_encode_concat(old(self).text@, text@);
            assert(self@.take(from as int) =~= before);
            lines::lemma_starts_grow(before, encode_utf8(text@));
            assert forall|k: int| 0 <= k < first implies #[trigger] self.line_cols@[k]
                == lines::line_cols(self@, k) by {
                lines::lemma_lines_stay(before, encode_utf8(text@), k);
            }
        }
        let total: usize = self.text.as_str().as_bytes().len();
        self.scan(from, total);
        // The line that the new text landed in has grown.
        self.recount(first);
    }

    /// The byte offset of a cursor.
    pub fn offset_of(&self, cursor: DocCursor) -> (offset: usize)
        requires
            self.wf(),
            lines::line_start(self@, clamped(self@, cursor.line)) + cursor.byte <= usize::MAX,
        ensures
            offset == document::offset_of(self@, cursor),
            offset <= self@.len(),
    {
        let last: usize = self.line_count_less_one();
        let line: usize = if cursor.line < last {
            cursor.line
        } else {
            last
        };
        let (start, end) = self.line_bounds(line);
        let at: usize = start + cursor.byte;
        if at < end {
            at
        } else {
            end
        }
    }

    fn line_count_less_one(&self) -> (last: usize)
        requires
            self.wf(),
        ensures
            last == lines::line_count(self@) - 1,
    {
        proof {
            lines::lemma_starts(self@);
        }
        self.line_starts.len() - 1
    }

    /// The cursor at a byte offset.
    pub fn cursor_at_offset(&self, offset: usize) -> (cursor: DocCursor)
        requires
            self.wf(),
        ensures
            cursor == document::cursor_at(self@, offset as int),
    {
        let total: usize = self.len();
        let at: usize = if offset < total {
            offset
        } else {
            total
        };
        // The first line that starts behind the offset.
        let mut lo: usize = 1;
        let mut hi: usize = self.line_starts.len();
        proof {
            lines::lemma_starts(self@);
        }
        while lo < hi
            invariant
                self.wf(),
                at <= self@.len(),
                1 <= lo <= hi <= lines::line_count(self@),
                lines::line_start(self@, lo - 1) <= at,
                hi < lines::line_count(self@) ==> lines::line_start(self@, hi as int) > at,
            decreases hi - lo,
        {
            let mid: usize = lo + (hi - lo) / 2;
            assert(self.line_starts@[mid as int] == lines::line_start(self@, mid as int));
            if self.line_starts[mid] as usize <= at {
                lo = mid + 1;
            } else {
                hi = mid;
            }
        }
        let line: usize = lo - 1;
        proof {
            lines::lemma_line_at(self@, at as int);
            assert(lines::line_start(self@, line as int) <= at <= lines::line_end(
                self@,
                line as int,
            ));
            assert(self.line_starts@[line as int] == lines::line_start(self@, line as int));
        }
        DocCursor::new(line, at - self.line_starts[line] as usize)
    }

    /// The text between two cursors, in any order.
    pub fn text_between(&self, a: DocCursor, b: DocCursor) -> (text: String)
        requires
            self.wf(),
            lines::line_start(self@, clamped(self@, a.line)) + a.byte <= usize::MAX,
            lines::line_start(self@, clamped(self@, b.line)) + b.byte <= usize::MAX,
            a.at_most(b) ==> document::offset_of(self@, a) <= document::offset_of(self@, b),
            !a.at_most(b) ==> document::offset_of(self@, b) <= document::offset_of(self@, a),
            is_char_boundary(self@, document::offset_of(self@, a)),
            is_char_boundary(self@, document::offset_of(self@, b)),
        ensures
            encode_utf8(text@) == between(self@, a, b),
    {
        let (start, end) = order(a, b);
        let from: usize = self.offset_of(start);
        let to: usize = self.offset_of(end);
        self.part(from, to).to_owned()
    }

    /// Every occurrence of the needle in the whole text, laid out or not. Matches may span
    /// lines.
    pub fn find_all(&self, needle: &str) -> (found: Vec<(DocCursor, DocCursor)>)
        requires
            self.wf(),
        ensures
            found@ == occurrences(self@, encode_utf8(needle@)),
    {
        let pattern: &[u8] = needle.as_bytes();
        let n: usize = pattern.len();
        let offsets: Vec<usize> = search::find_matches(self.text.as_str().as_bytes(), pattern);
        let ghost at = search::matches_from(self@, pattern@, 0);
        proof {
            if n > 0 {
                search::lemma_matches(self@, pattern@, 0);
            }
        }
        let mut found: Vec<(DocCursor, DocCursor)> = Vec::new();
        let mut i: usize = 0;
        while i < offsets.len()
            invariant
                self.wf(),
                i <= offsets@.len(),
                n == pattern@.len(),
                search::as_ints(offsets@) == at,
                n > 0 ==> search::all_occur(self@, pattern@, 0, at),
                n == 0 ==> offsets@.len() == 0,
                found@ == Seq::new(
                    i as nat,
                    |k: int|
                        (
                            document::cursor_at(self@, at[k]),
                            document::cursor_at(self@, at[k] + pattern@.len()),
                        ),
                ),
            decreases offsets@.len() - i,
        {
            proof {
                self.lemma_sizes();
                assert(at[i as int] == offsets@[i as int]);
                assert(search::occurs_at(self@, pattern@, at[i as int]));
                reveal(search::occurs_at);
            }
            let start: DocCursor = self.cursor_at_offset(offsets[i]);
            let end: DocCursor = self.cursor_at_offset(offsets[i] + n);
            found.push((start, end));
            i = i + 1;
            assert(found@ =~= Seq::new(
                i as nat,
                |k: int|
                    (
                        document::cursor_at(self@, at[k]),
                        document::cursor_at(self@, at[k] + pattern@.len()),
                    ),
            ));
        }
        assert(found@ =~= occurrences(self@, encode_utf8(needle@)));
        found
    }
}

/// A line, or the last one for a line past the end.
pub open spec fn clamped(bytes: Seq<u8>, line: usize) -> int {
    if line < lines::line_count(bytes) - 1 {
        line as int
    } else {
        lines::line_count(bytes) - 1
    }
}

/// The bytes between two cursors, in any order.
pub open spec fn between(bytes: Seq<u8>, a: DocCursor, b: DocCursor) -> Seq<u8> {
    if a.at_most(b) {
        bytes.subrange(document::offset_of(bytes, a), document::offset_of(bytes, b))
    } else {
        bytes.subrange(document::offset_of(bytes, b), document::offset_of(bytes, a))
    }
}

/// The start and the end of each match of a needle.
pub open spec fn occurrences(bytes: Seq<u8>, needle: Seq<u8>) -> Seq<(DocCursor, DocCursor)> {
    search::matches_from(bytes, needle, 0).map_values(
        |at: int| (document::cursor_at(bytes, at), document::cursor_at(bytes, at + needle.len())),
    )
}

/// The text between the start and the end of a match is the needle.
pub proof fn lemma_match_reads_back(bytes: Seq<u8>, needle: Seq<u8>, i: int)
    requires
        bytes.len() <= u32::MAX,
        0 < needle.len(),
        0 <= i < occurrences(bytes, needle).len(),
    ensures
        between(bytes, occurrences(bytes, needle)[i].0, occurrences(bytes, needle)[i].1) == needle,
{
    let at = search::matches_from(bytes, needle, 0)[i];
    search::lemma_matches(bytes, needle, 0);
    assert(search::occurs_at(bytes, needle, at));
    reveal(search::occurs_at);
    let (start, end) = occurrences(bytes, needle)[i];
    document::lemma_offset_round_trip(bytes, at);
    document::lemma_offset_round_trip(bytes, at + needle.len());
    if !start.at_most(end) {
        document::lemma_offsets_in_order(bytes, end, start);
    }
}

/// Where the matches of a needle start.
pub open spec fn match_offsets(bytes: Seq<u8>, needle: Seq<u8>) -> Seq<int> {
    Seq::new(
        occurrences(bytes, needle).len(),
        |i: int| document::offset_of(bytes, occurrences(bytes, needle)[i].0),
    )
}

/// What a search finds. An empty needle is found nowhere. Otherwise every match is as long
/// as the needle and reads like it, the matches come from left to right and do not overlap,
/// and wherever the needle stands in the text, it is a match or begins inside one: so none
/// begins between the end of a match and the start of the next.
pub proof fn lemma_search(bytes: Seq<u8>, needle: Seq<u8>)
    requires
        bytes.len() <= u32::MAX,
    ensures
        needle.len() == 0 ==> occurrences(bytes, needle).len() == 0,
        forall|i: int|
            0 <= i < occurrences(bytes, needle).len() ==> {
                let (start, end) = #[trigger] occurrences(bytes, needle)[i];
                &&& document::is_exact(bytes, start)
                &&& document::is_exact(bytes, end)
                &&& document::offset_of(bytes, end) == document::offset_of(bytes, start)
                    + needle.len()
                &&& between(bytes, start, end) == needle
            },
        search::all_apart(match_offsets(bytes, needle), needle.len() as int),
        needle.len() > 0 ==> search::none_missed(bytes, needle, 0, match_offsets(bytes, needle)),
{
    let at = search::matches_from(bytes, needle, 0);
    let found = occurrences(bytes, needle);
    if needle.len() > 0 {
        search::lemma_matches(bytes, needle, 0);
        assert forall|i: int| 0 <= i < found.len() implies {
            let (start, end) = #[trigger] found[i];
            &&& document::is_exact(bytes, start)
            &&& document::is_exact(bytes, end)
            &&& document::offset_of(bytes, start) == at[i]
            &&& document::offset_of(bytes, end) == at[i] + needle.len()
            &&& between(bytes, start, end) == needle
        } by {
            lemma_match_reads_back(bytes, needle, i);
            assert(search::occurs_at(bytes, needle, at[i]));
            reveal(search::occurs_at);
            document::lemma_offset_round_trip(bytes, at[i]);
            document::lemma_offset_round_trip(bytes, at[i] + needle.len());
        }
        assert(match_offsets(bytes, needle) =~= at);
    } else {
        assert(found.len() == 0);
    }
}

/// The text between two cursors is the same either way round, and what is between two
/// cursors and between the second of them and a third, put together, is what is between the
/// first and the third.
#[verifier::spinoff_prover]
pub proof fn lemma_between(bytes: Seq<u8>, a: DocCursor, b: DocCursor, c: DocCursor)
    requires
        a.at_most(b),
        b.at_most(c),
        c.line < lines::line_count(bytes),
    ensures
        between(bytes, a, b) == between(bytes, b, a),
        between(bytes, a, b) + between(bytes, b, c) == between(bytes, a, c),
        between(bytes, a, b).len() == document::offset_of(bytes, b) - document::offset_of(
            bytes,
            a,
        ),
        bytes.take(document::offset_of(bytes, a)) + between(bytes, a, b) == bytes.take(
            document::offset_of(bytes, b),
        ),
{
    document::lemma_offsets_in_order(bytes, a, b);
    document::lemma_offsets_in_order(bytes, b, c);
    if b.at_most(a) {
        assert(a == b);
    }
    if c.at_most(a) {
        assert(a == c);
    }
    if c.at_most(b) {
        assert(b == c);
    }
    let (i, j, k) = (
        document::offset_of(bytes, a),
        document::offset_of(bytes, b),
        document::offset_of(bytes, c),
    );
    assert(bytes.subrange(i, j) + bytes.subrange(j, k) =~= bytes.subrange(i, k));
    assert(bytes.take(i) + bytes.subrange(i, j) =~= bytes.take(j));
}

} // verus!
