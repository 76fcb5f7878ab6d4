//! The line index of a text: where every line starts, and what follows from it.
use vstd::prelude::*;
use vstd::utf8::*;
use crate::text;

verus! {

/// The byte that ends a line.
pub const NEWLINE: u8 = 0x0A;

/// The byte offset of every line start: the first byte, and the one behind each newline.
pub open spec fn starts(bytes: Seq<u8>) -> Seq<int>
    decreases bytes.len(),
{
    if bytes.len() == 0 {
        seq![0]
    } else if bytes.last() == NEWLINE {
        starts(bytes.drop_last()).push(bytes.len() as int)
    } else {
        starts(bytes.drop_last())
    }
}

/// The number of lines; an empty text is one line.
pub open spec fn line_count(bytes: Seq<u8>) -> int {
    starts(bytes).len() as int
}

/// Where a line starts.
pub open spec fn line_start(bytes: Seq<u8>, line: int) -> int {
    starts(bytes)[line]
}

/// Where a line ends: before its newline, or at the end of the text.
pub open spec fn line_end(bytes: Seq<u8>, line: int) -> int {
    if line + 1 < line_count(bytes) {
        starts(bytes)[line + 1] - 1
    } else {
        bytes.len() as int
    }
}

/// The bytes of a line, without its newline.
pub open spec fn line_bytes(bytes: Seq<u8>, line: int) -> Seq<u8> {
    bytes.subrange(line_start(bytes, line), line_end(bytes, line))
}

/// The number of characters of a line.
pub open spec fn line_cols(bytes: Seq<u8>, line: int) -> int {
    decode_utf8(line_bytes(bytes, line)).len() as int
}

/// The line an offset is in: the last one that starts no later.
pub open spec fn line_at(bytes: Seq<u8>, offset: int) -> int {
    choose|line: int|
        0 <= line < line_count(bytes) && #[trigger] line_start(bytes, line) <= offset && offset
            <= line_end(bytes, line)
}

/// Lines start at 0, then in ascending order, each behind a newline.
pub proof fn lemma_starts(bytes: Seq<u8>)
    ensures
        1 <= line_count(bytes) <= bytes.len() + 1,
        starts(bytes)[0] == 0,
        forall|k: int| 0 <= k < line_count(bytes) ==> 0 <= #[trigger] starts(bytes)[k] <= bytes.len(),
        forall|j: int, k: int|
            0 <= j < k < line_count(bytes) ==> #[trigger] starts(bytes)[j] < #[trigger] starts(
                bytes,
            )[k],
        forall|k: int|
            1 <= k < line_count(bytes) ==> bytes[#[trigger] starts(bytes)[k] - 1] == NEWLINE,
    decreases bytes.len(),
{
    if bytes.len() > 0 {
        let shorter = bytes.drop_last();
        lemma_starts(shorter);
        assert forall|k: int| 1 <= k < line_count(bytes) implies bytes[#[trigger] starts(bytes)[k]
            - 1] == NEWLINE by {
            if k < line_count(shorter) {
                assert(starts(bytes)[k] == starts(shorter)[k]);
                assert(starts(shorter)[k] > starts(shorter)[0]);
                assert(shorter[starts(shorter)[k] - 1] == NEWLINE);
            }
        }
    }
}

/// No line holds a newline: the newlines are what stands between the lines.
pub proof fn lemma_no_newline_inside(bytes: Seq<u8>, line: int, i: int)
    requires
        0 <= line < line_count(bytes),
        line_start(bytes, line) <= i < line_end(bytes, line),
    ensures
        0 <= i < bytes.len(),
        bytes[i] != NEWLINE,
    decreases bytes.len(),
{
    lemma_starts(bytes);
    if bytes.len() > 0 {
        let shorter = bytes.drop_last();
        lemma_starts(shorter);
        if bytes.last() == NEWLINE {
            if line == line_count(shorter) {
            } else {
                assert(line_start(bytes, line) == line_start(shorter, line));
                assert(line_end(bytes, line) == line_end(shorter, line));
                lemma_no_newline_inside(shorter, line, i);
            }
        } else if i < shorter.len() {
            lemma_no_newline_inside(shorter, line, i);
        }
    }
}

/// Each line but the last ends at a newline, with the next one right behind it.
pub proof fn lemma_newline_between(bytes: Seq<u8>, line: int)
    requires
        0 <= line < line_count(bytes) - 1,
    ensures
        0 <= line_start(bytes, line) <= line_end(bytes, line) < bytes.len(),
        bytes[line_end(bytes, line)] == NEWLINE,
        line_start(bytes, line + 1) == line_end(bytes, line) + 1,
{
    lemma_starts(bytes);
    assert(starts(bytes)[line] < starts(bytes)[line + 1]);
}

/// A line lies in the text.
pub proof fn lemma_line_bounds(bytes: Seq<u8>, line: int)
    requires
        0 <= line < line_count(bytes),
    ensures
        0 <= line_start(bytes, line) <= line_end(bytes, line) <= bytes.len(),
{
    lemma_starts(bytes);
    if line + 1 < line_count(bytes) {
        lemma_newline_between(bytes, line);
    }
}

/// Pieces with a newline between any two of them.
pub open spec fn with_newlines(pieces: Seq<Seq<u8>>) -> Seq<u8>
    decreases pieces.len(),
{
    if pieces.len() == 0 {
        Seq::empty()
    } else if pieces.len() == 1 {
        pieces[0]
    } else {
        with_newlines(pieces.drop_last()).push(NEWLINE) + pieces.last()
    }
}

/// All lines of a text.
pub open spec fn all_lines(bytes: Seq<u8>) -> Seq<Seq<u8>> {
    Seq::new(line_count(bytes) as nat, |line: int| line_bytes(bytes, line))
}

proof fn lemma_first_lines_join(bytes: Seq<u8>, n: int)
    requires
        1 <= n <= line_count(bytes),
    ensures
        with_newlines(all_lines(bytes).take(n)) == bytes.take(line_end(bytes, n - 1)),
    decreases n,
{
    let pieces = all_lines(bytes).take(n);
    lemma_starts(bytes);
    lemma_line_bounds(bytes, n - 1);
    if n == 1 {
        assert(pieces[0] == line_bytes(bytes, 0));
        assert(line_bytes(bytes, 0) =~= bytes.take(line_end(bytes, 0)));
    } else {
        assert(pieces.drop_last() =~= all_lines(bytes).take(n - 1));
        lemma_first_lines_join(bytes, n - 1);
        lemma_newline_between(bytes, n - 2);
        assert(pieces.last() == line_bytes(bytes, n - 1));
        assert(with_newlines(pieces) =~= bytes.take(line_end(bytes, n - 1)));
    }
}

/// The lines of a text, joined with newlines, give the text back.
pub proof fn lemma_lines_join(bytes: Seq<u8>)
    ensures
        with_newlines(all_lines(bytes)) == bytes,
{
    lemma_starts(bytes);
    lemma_first_lines_join(bytes, line_count(bytes));
    assert(all_lines(bytes).take(line_count(bytes)) =~= all_lines(bytes));
    assert(bytes.take(line_end(bytes, line_count(bytes) - 1)) =~= bytes);
}

proof fn lemma_starts_without_newline(a: Seq<u8>, b: Seq<u8>)
    requires
        !b.contains(NEWLINE),
    ensures
        starts(a + b) == starts(a),
    decreases b.len(),
{
    if b.len() == 0 {
        assert(a + b =~= a);
    } else {
        assert((a + b).drop_last() =~= a + b.drop_last());
        assert(b.contains(b.last()));
        assert forall|i: int| 0 <= i < b.drop_last().len() implies b.drop_last()[i] != NEWLINE by {
            assert(b.contains(b[i]));
        }
        lemma_starts_without_newline(a, b.drop_last());
    }
}

/// The lines are what a plain split at the newlines gives: pieces without a newline in them
/// that join to the text are its lines, in order.
pub proof fn lemma_lines_are_a_split(bytes: Seq<u8>, pieces: Seq<Seq<u8>>)
    requires
        pieces.len() > 0,
        forall|i: int| 0 <= i < pieces.len() ==> !(#[trigger] pieces[i]).contains(NEWLINE),
        with_newlines(pieces) == bytes,
    ensures
        pieces == all_lines(bytes),
    decreases pieces.len(),
{
    let last = pieces.last();
    assert(!last.contains(NEWLINE));
    if pieces.len() == 1 {
        assert(Seq::<u8>::empty() + last =~= bytes);
        lemma_starts_without_newline(Seq::empty(), last);
        assert(starts(Seq::<u8>::empty()) =~= seq![0int]);
        assert(line_bytes(bytes, 0) =~= last);
        assert(pieces =~= all_lines(bytes));
    } else {
        let front = with_newlines(pieces.drop_last());
        assert forall|i: int| 0 <= i < pieces.drop_last().len() implies !(
        #[trigger] pieces.drop_last()[i]).contains(NEWLINE) by {
            assert(pieces.drop_last()[i] == pieces[i]);
        }
        lemma_lines_are_a_split(front, pieces.drop_last());
        lemma_starts_without_newline(front.push(NEWLINE), last);
        assert(front.push(NEWLINE).drop_last() =~= front);
        lemma_starts(front);
        assert(starts(bytes) =~= starts(front).push((front.len() + 1) as int));
        assert forall|i: int| 0 <= i < pieces.len() implies pieces[i] == line_bytes(bytes, i) by {
            if i < pieces.len() - 1 {
                assert(pieces[i] == pieces.drop_last()[i]);
                assert(pieces[i] == line_bytes(front, i));
                lemma_line_bounds(front, i);
                assert(line_bytes(bytes, i) =~= line_bytes(front, i));
            } else {
                assert(line_bytes(bytes, i) =~= last);
            }
        }
        assert(pieces =~= all_lines(bytes));
    }
}

/// There is one more line than there are newlines.
pub proof fn lemma_lines_counted(bytes: Seq<u8>)
    ensures
        line_count(bytes) == 1 + bytes.to_multiset().count(NEWLINE),
    decreases bytes.len(),
{
    if bytes.len() == 0 {
        bytes.to_multiset_ensures();
        vstd::seq_lib::to_multiset_contains(bytes, NEWLINE);
    } else {
        let shorter = bytes.drop_last();
        lemma_lines_counted(shorter);
        shorter.to_multiset_ensures();
        assert(shorter.push(bytes.last()) =~= bytes);
    }
}

/// Every offset is in exactly one line.
pub proof fn lemma_line_at(bytes: Seq<u8>, offset: int)
    requires
        0 <= offset <= bytes.len(),
    ensures
        0 <= line_at(bytes, offset) < line_count(bytes),
        line_start(bytes, line_at(bytes, offset)) <= offset <= line_end(
            bytes,
            line_at(bytes, offset),
        ),
        forall|line: int|
            0 <= line < line_count(bytes) && #[trigger] line_start(bytes, line) <= offset
                <= line_end(bytes, line) ==> line == line_at(bytes, offset),
{
    lemma_starts(bytes);
    let at = lemma_some_line_at(bytes, offset, line_count(bytes));
    assert(line_start(bytes, at) <= offset);
    assert forall|line: int|
        0 <= line < line_count(bytes) && #[trigger] line_start(bytes, line) <= offset <= line_end(
            bytes,
            line,
        ) implies line == line_at(bytes, offset) by {
        let other = line_at(bytes, offset);
        if line < other {
            lemma_newline_between(bytes, line);
            assert(starts(bytes)[line + 1] <= starts(bytes)[other]);
        } else if other < line {
            lemma_newline_between(bytes, other);
            assert(starts(bytes)[other + 1] <= starts(bytes)[line]);
        }
    }
}

proof fn lemma_some_line_at(bytes: Seq<u8>, offset: int, n: int) -> (line: int)
    requires
        0 <= offset <= bytes.len(),
        1 <= n <= line_count(bytes),
        n < line_count(bytes) ==> offset < line_start(bytes, n),
    ensures
        0 <= line < line_count(bytes),
        line_start(bytes, line) <= offset <= line_end(bytes, line),
    decreases n,
{
    lemma_starts(bytes);
    if line_start(bytes, n - 1) <= offset {
        n - 1
    } else {
        lemma_some_line_at(bytes, offset, n - 1)
    }
}

/// More text leaves every line start where it was.
pub proof fn lemma_starts_grow(a: Seq<u8>, b: Seq<u8>)
    ensures
        line_count(a) <= line_count(a + b),
        forall|k: int|
            0 <= k < line_count(a) ==> #[trigger] starts(a + b)[k] == starts(a)[k],
    decreases b.len(),
{
    if b.len() == 0 {
        assert(a + b =~= a);
    } else {
        assert((a + b).drop_last() =~= a + b.drop_last());
        lemma_starts_grow(a, b.drop_last());
        lemma_starts(a + b.drop_last());
    }
}

/// More text leaves every line but the last as it was.
pub proof fn lemma_lines_stay(a: Seq<u8>, b: Seq<u8>, line: int)
    requires
        0 <= line < line_count(a) - 1,
    ensures
        line_bytes(a + b, line) == line_bytes(a, line),
{
    lemma_starts_grow(a, b);
    lemma_newline_between(a, line);
    assert(starts(a + b)[line + 1] == starts(a)[line + 1]);
    assert(line_bytes(a + b, line) =~= line_bytes(a, line));
}

/// Lines start and end between characters.
pub proof fn lemma_line_boundaries(bytes: Seq<u8>, line: int)
    requires
        valid_utf8(bytes),
        0 <= line < line_count(bytes),
    ensures
        is_char_boundary(bytes, line_start(bytes, line)),
        is_char_boundary(bytes, line_end(bytes, line)),
{
    lemma_starts(bytes);
    is_char_boundary_start_end_of_seq(bytes);
    if line > 0 {
        assert(starts(bytes)[line] > starts(bytes)[0]);
        text::lemma_boundary_after_ascii(bytes, line_start(bytes, line));
    }
    if line + 1 < line_count(bytes) {
        lemma_newline_between(bytes, line);
        text::lemma_boundary_at_ascii(bytes, line_end(bytes, line));
    }
}

/// The bytes of a line are a text of their own.
pub proof fn lemma_line_valid(bytes: Seq<u8>, line: int)
    requires
        valid_utf8(bytes),
        0 <= line < line_count(bytes),
    ensures
        valid_utf8(line_bytes(bytes, line)),
{
    lemma_line_boundaries(bytes, line);
    lemma_line_bounds(bytes, line);
    let start = line_start(bytes, line);
    let end = line_end(bytes, line);
    text::lemma_boundary_in_prefix(bytes, start, end);
    let prefix = bytes.subrange(0, end);
    valid_utf8_split(prefix, start);
    assert(prefix.subrange(start, end) =~= line_bytes(bytes, line));
}

proof fn lemma_starts_of_prefix(bytes: Seq<u8>, n: int)
    requires
        0 <= n <= bytes.len(),
    ensures
        line_count(bytes.take(n)) <= line_count(bytes),
        forall|k: int|
            0 <= k < line_count(bytes) ==> (#[trigger] starts(bytes)[k] <= n <==> k < line_count(
                bytes.take(n),
            )),
        forall|k: int|
            0 <= k < line_count(bytes.take(n)) ==> #[trigger] starts(bytes.take(n))[k] == starts(
                bytes,
            )[k],
    decreases bytes.len(),
{
    lemma_starts(bytes);
    if n == bytes.len() {
        assert(bytes.take(n) =~= bytes);
    } else {
        let shorter = bytes.drop_last();
        lemma_starts_of_prefix(shorter, n);
        lemma_starts(shorter);
        assert(shorter.take(n) =~= bytes.take(n));
    }
}

proof fn lemma_starts_of_suffix(bytes: Seq<u8>, first: int)
    requires
        0 <= first < line_count(bytes),
    ensures
        ({
            let from = line_start(bytes, first);
            &&& 0 <= from <= bytes.len()
            &&& line_count(bytes.skip(from)) == line_count(bytes) - first
            &&& forall|k: int|
                0 <= k < line_count(bytes) - first ==> #[trigger] starts(bytes.skip(from))[k]
                    == starts(bytes)[first + k] - from
        }),
    decreases bytes.len(),
{
    lemma_starts(bytes);
    let from = line_start(bytes, first);
    if from == bytes.len() {
        assert(bytes.skip(from) =~= Seq::<u8>::empty());
        if first + 1 < line_count(bytes) {
            assert(starts(bytes)[first] < starts(bytes)[first + 1]);
        }
    } else {
        let shorter = bytes.drop_last();
        lemma_starts(shorter);
        lemma_starts_of_suffix(shorter, first);
        assert(bytes.skip(from).drop_last() =~= shorter.skip(from));
        assert(bytes.skip(from).last() == bytes.last());
    }
}

/// A run of whole lines, cut out of a text, has those lines and no others.
pub proof fn lemma_lines_of_part(bytes: Seq<u8>, first: int, last: int)
    requires
        0 <= first <= last < line_count(bytes),
    ensures
        ({
            let part = bytes.subrange(line_start(bytes, first), line_end(bytes, last));
            &&& line_count(part) == last - first + 1
            &&& forall|k: int|
                0 <= k <= last - first ==> #[trigger] line_bytes(part, k) == line_bytes(
                    bytes,
                    first + k,
                )
        }),
{
    lemma_starts(bytes);
    lemma_line_bounds(bytes, first);
    lemma_line_bounds(bytes, last);
    let from = line_start(bytes, first);
    let to = line_end(bytes, last);
    if first < last {
        assert(starts(bytes)[first] < starts(bytes)[last]);
    }
    let head = bytes.take(to);
    lemma_starts_of_prefix(bytes, to);
    assert(line_count(head) == last + 1) by {
        assert(starts(bytes)[last] <= to);
        if last + 1 < line_count(bytes) {
            assert(starts(bytes)[last + 1] > to);
        }
    }
    assert(line_start(head, first) == from);
    lemma_starts_of_suffix(head, first);
    let part = bytes.subrange(from, to);
    assert(head.skip(from) =~= part);
    assert forall|k: int| 0 <= k <= last - first implies #[trigger] line_bytes(part, k)
        == line_bytes(bytes, first + k) by {
        lemma_line_bounds(bytes, first + k);
        assert(starts(part)[k] == starts(head)[first + k] - from);
        if k < last - first {
            assert(starts(part)[k + 1] == starts(head)[first + (k + 1)] - from);
        }
        lemma_line_bounds(part, k);
        assert(line_bytes(part, k) =~= line_bytes(bytes, first + k));
    }
}

} // verus!
