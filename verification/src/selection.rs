//! Selecting text with a pointer.
//!
//! Pressing the pointer on the text anchors a selection there, dragging moves its other
//! end, and letting go leaves it as it is. Which cursor is under the pointer is the
//! caller's to find.

use vstd::prelude::*;
use vstd::string::*;
use vstd::utf8::*;
use crate::graphemes;
use crate::text;
use crate::view::{ordered, Cursor};

verus! {

/// What is selected: the anchor and the other end, in whichever order the pointer went.
#[derive(Clone, Copy, Debug)]
pub struct Selection {
    pub range: Option<(Cursor, Cursor)>,
    pub dragging: bool,
}

/// The clamped byte that the selection starts at on a line.
pub open spec fn part_start(lines: Seq<Seq<char>>, start: Cursor, i: int) -> int {
    let len = encode_utf8(lines[i]).len() as int;
    if i != start.line {
        0
    } else if start.index < len {
        start.index as int
    } else {
        len
    }
}

/// The clamped byte that the selection ends at on a line.
pub open spec fn part_end(lines: Seq<Seq<char>>, end: Cursor, i: int) -> int {
    let len = encode_utf8(lines[i]).len() as int;
    if i == end.line && end.index < len {
        end.index as int
    } else {
        len
    }
}

/// The bytes selected among the first `n` lines. Lines are parted by a newline.
pub open spec fn selected_bytes(lines: Seq<Seq<char>>, start: Cursor, end: Cursor, n: int) -> Seq<
    u8,
>
    decreases n,
{
    if n <= 0 {
        Seq::empty()
    } else {
        let i = n - 1;
        let before = selected_bytes(lines, start, end, i);
        if i < start.line || i > end.line {
            before
        } else {
            let parted = if i > start.line {
                before.push(0xA)
            } else {
                before
            };
            parted + encode_utf8(lines[i]).subrange(
                part_start(lines, start, i),
                part_end(lines, end, i),
            )
        }
    }
}

/// The selection starts and ends between characters.
pub open spec fn selectable(lines: Seq<Seq<char>>, start: Cursor, end: Cursor) -> bool {
    &&& start.line < lines.len() ==> is_char_boundary(
        encode_utf8(lines[start.line as int]),
        part_start(lines, start, start.line as int),
    )
    &&& end.line < lines.len() ==> is_char_boundary(
        encode_utf8(lines[end.line as int]),
        part_end(lines, end, end.line as int),
    )
}

/// The first of two cursors.
pub open spec fn first_of(range: (Cursor, Cursor)) -> Cursor {
    if range.0.at_most(range.1) {
        range.0
    } else {
        range.1
    }
}

/// The second of two cursors.
pub open spec fn last_of(range: (Cursor, Cursor)) -> Cursor {
    if range.0.at_most(range.1) {
        range.1
    } else {
        range.0
    }
}

/// A click without a drag selects no text.
pub proof fn lemma_click_selects_nothing(lines: Seq<Seq<char>>, at: Cursor, n: int)
    requires
        0 <= n <= lines.len(),
    ensures
        selected_bytes(lines, at, at, n) == Seq::<u8>::empty(),
    decreases n,
{
    if n > 0 {
        lemma_click_selects_nothing(lines, at, n - 1);
        assert(selected_bytes(lines, at, at, n) =~= Seq::<u8>::empty());
    }
}

/// It makes no difference which end of a selection was the anchor.
pub proof fn lemma_either_way_round(a: Cursor, b: Cursor)
    ensures
        first_of((a, b)) == first_of((b, a)),
        last_of((a, b)) == last_of((b, a)),
{
}

/// Everything from the start of the first line to the end of the last is the lines, parted
/// by newlines.
pub proof fn lemma_select_all(lines: Seq<Seq<char>>, start: Cursor, end: Cursor, n: int)
    requires
        0 < n <= lines.len(),
        start.line == 0,
        start.index == 0,
        end.line == lines.len() - 1,
        end.index >= encode_utf8(lines.last()).len(),
    ensures
        selected_bytes(lines, start, end, n) == (if n == 1 {
            encode_utf8(lines[0])
        } else {
            selected_bytes(lines, start, end, n - 1).push(0xA) + encode_utf8(lines[n - 1])
        }),
{
    let bytes = encode_utf8(lines[n - 1]);
    assert(bytes.subrange(0, bytes.len() as int) =~= bytes);
    assert(selected_bytes(lines, start, end, 0) =~= Seq::<u8>::empty());
    if n == 1 {
        assert(Seq::<u8>::empty() + bytes =~= bytes);
    }
}

proof fn lemma_newline_bytes(before: Seq<char>, after: Seq<char>)
    requires
        after == before + "\n"@,
    ensures
        encode_utf8(after) == encode_utf8(before).push(0xA),
{
    reveal_strlit("\n");
    text::lemma_encode_concat(before, "\n"@);
    assert("\n"@ =~= seq!['\n']);
    let line = seq!['\n'];
    assert(line.drop_first() =~= Seq::<char>::empty());
    reveal_with_fuel(encode_utf8, 2);
    assert(encode_utf8(line) =~= seq![0xAu8]) by {
        let c = '\n' as u32;
        assert(c == 10);
        assert((0xAu32 & 0x7F) as u8 == 0xAu8) by (bit_vector);
    }
    assert(encode_utf8(before) + seq![0xAu8] =~= encode_utf8(before).push(0xA));
}

impl Selection {
    /// Nothing selected.
    pub fn new() -> (selection: Selection)
        ensures
            selection == (Selection { range: None, dragging: false }),
    {
        Selection { range: None, dragging: false }
    }

    /// The text was replaced, so what was selected is gone.
    pub fn clear(&mut self)
        ensures
            *final(self) == (Selection { range: None, ..*old(self) }),
    {
        self.range = None;
    }

    /// The pointer was pressed, over a cursor or off the text.
    pub fn pointer_down(&mut self, hit: Option<Cursor>)
        ensures
            *final(self) == (match hit {
                Some(cursor) => Selection { range: Some((cursor, cursor)), dragging: true },
                None => *old(self),
            }),
    {
        if let Some(cursor) = hit {
            self.range = Some((cursor, cursor));
            self.dragging = true;
        }
    }

    /// The pointer moved. Only a drag over the text moves the end of the selection.
    pub fn pointer_move(&mut self, hit: Option<Cursor>)
        ensures
            *final(self) == (match (old(self).range, hit) {
                (Some((anchor, _)), Some(cursor)) if old(self).dragging => Selection {
                    range: Some((anchor, cursor)),
                    dragging: true,
                },
                _ => *old(self),
            }),
    {
        if !self.dragging {
            return;
        }
        if let (Some((anchor, _)), Some(cursor)) = (self.range, hit) {
            self.range = Some((anchor, cursor));
        }
    }

    /// The pointer was let go of.
    pub fn pointer_up(&mut self)
        ensures
            *final(self) == (Selection { dragging: false, ..*old(self) }),
    {
        self.dragging = false;
    }

    /// The selected text, for the clipboard. A cursor past the end of its line stands at
    /// the end.
    pub fn selected_text(&self, lines: &Vec<String>) -> (selected: String)
        requires
            self.range matches Some(range) ==> selectable(
                graphemes::texts(lines@),
                first_of(range),
                last_of(range),
            ),
        ensures
            encode_utf8(selected@) == (match self.range {
                Some(range) => selected_bytes(
                    graphemes::texts(lines@),
                    first_of(range),
                    last_of(range),
                    lines@.len() as int,
                ),
                None => Seq::empty(),
            }),
    {
        let (a, b) = match self.range {
            Some(range) => range,
            None => {
                let empty = String::new();
                assert(empty@ =~= Seq::<char>::empty());
                return empty;
            },
        };
        let (start, end) = ordered(a, b);
        let ghost views = graphemes::texts(lines@);
        let mut out = String::new();
        assert(out@ =~= Seq::<char>::empty());
        let mut i: usize = 0;
        while i < lines.len()
            invariant
                i <= lines@.len(),
                views == graphemes::texts(lines@),
                start.at_most(end),
                selectable(views, start, end),
                encode_utf8(out@) == selected_bytes(views, start, end, i as int),
            decreases lines@.len() - i,
        {
            if i >= start.line && i <= end.line {
                let line: &str = lines[i].as_str();
                assert(line@ == views[i as int]);
                let len: usize = line.as_bytes().len();
                let from: usize = if i == start.line && start.index < len {
                    start.index
                } else if i == start.line {
                    len
                } else {
                    0
                };
                let to: usize = if i == end.line && end.index < len {
                    end.index
                } else {
                    len
                };
                if i > start.line {
                    let ghost before = out@;
                    out.append("\n");
                    proof {
                        lemma_newline_bytes(before, out@);
                    }
                }
                proof {
                    encode_utf8_valid_utf8(line@);
                    is_char_boundary_start_end_of_seq(encode_utf8(line@));
                }
                assert(from == part_start(views, start, i as int));
                assert(to == part_end(views, end, i as int));
                let part: &str = text::slice(line, from, to);
                let ghost before = out@;
                out.append(part);
                proof {
                    text::lemma_encode_concat(before, part@);
                }
            }
            i = i + 1;
        }
        out
    }
}

/// The bytes of all lines before one, with a newline behind each.
pub open spec fn begin_of(lines: Seq<Seq<char>>, line: int) -> int
    decreases line,
{
    if line <= 0 {
        0
    } else {
        begin_of(lines, line - 1) + encode_utf8(lines[line - 1]).len() + 1
    }
}

/// Where a cursor is in the whole text; past the end of its line it is at the end.
pub open spec fn place_of(lines: Seq<Seq<char>>, at: Cursor) -> int {
    let len = encode_utf8(lines[at.line as int]).len() as int;
    begin_of(lines, at.line as int) + if at.index < len {
        at.index as int
    } else {
        len
    }
}

/// The whole text: the first `n` lines, parted by newlines.
pub open spec fn whole_text(lines: Seq<Seq<char>>, n: int) -> Seq<u8>
    decreases n,
{
    if n <= 1 {
        encode_utf8(lines[0])
    } else {
        whole_text(lines, n - 1).push(0xA) + encode_utf8(lines[n - 1])
    }
}

proof fn lemma_whole_len(lines: Seq<Seq<char>>, n: int)
    requires
        1 <= n <= lines.len(),
    ensures
        whole_text(lines, n).len() + 1 == begin_of(lines, n),
        0 <= begin_of(lines, n - 1),
    decreases n,
{
    reveal_with_fuel(begin_of, 2);
    if n > 1 {
        lemma_whole_len(lines, n - 1);
    }
}

proof fn lemma_begin_ascends(lines: Seq<Seq<char>>, i: int, j: int)
    requires
        0 <= i < j <= lines.len(),
    ensures
        0 <= begin_of(lines, i),
        begin_of(lines, i) + encode_utf8(lines[i]).len() + 1 <= begin_of(lines, j),
    decreases j,
{
    if i < j - 1 {
        lemma_begin_ascends(lines, i, j - 1);
    } else if i > 0 {
        lemma_begin_ascends(lines, i - 1, i);
    }
}

#[verifier::spinoff_prover]
proof fn lemma_selected_so_far(lines: Seq<Seq<char>>, start: Cursor, end: Cursor, n: int)
    requires
        start.line <= end.line < lines.len(),
        place_of(lines, start) <= place_of(lines, end),
        1 <= n <= lines.len(),
    ensures
        n <= start.line ==> selected_bytes(lines, start, end, n).len() == 0,
        start.line < n <= end.line ==> selected_bytes(lines, start, end, n) == whole_text(
            lines,
            n,
        ).subrange(place_of(lines, start), whole_text(lines, n).len() as int) && place_of(
            lines,
            start,
        ) <= whole_text(lines, n).len(),
        end.line < n ==> selected_bytes(lines, start, end, n) == whole_text(lines, n).subrange(
            place_of(lines, start),
            place_of(lines, end),
        ) && place_of(lines, end) <= whole_text(lines, n).len(),
    decreases n,
{
    let i = n - 1;
    let bytes = encode_utf8(lines[i]);
    let all = whole_text(lines, n);
    let from = place_of(lines, start);
    let to = place_of(lines, end);
    lemma_whole_len(lines, n);
    lemma_begin_ascends(lines, start.line as int, lines.len() as int);
    if n > 1 {
        lemma_selected_so_far(lines, start, end, n - 1);
        lemma_whole_len(lines, n - 1);
    } else {
        assert(selected_bytes(lines, start, end, 0) =~= Seq::<u8>::empty());
    }
    let before = selected_bytes(lines, start, end, i);
    let now = selected_bytes(lines, start, end, n);
    let base = begin_of(lines, i);
    assert(all.len() == base + bytes.len());
    assert(forall|k: int| 0 <= k < bytes.len() ==> all[base + k] == #[trigger] bytes[k]);
    if i == start.line {
        assert(before.len() == 0);
        if i == end.line {
            assert(now =~= all.subrange(from, to));
        } else {
            assert(now =~= all.subrange(from, all.len() as int));
        }
    } else if start.line < i <= end.line {
        let head = whole_text(lines, i);
        assert(all[head.len() as int] == 0xA);
        assert(forall|k: int| 0 <= k < head.len() ==> all[k] == #[trigger] head[k]);
        if i == end.line {
            assert(now =~= all.subrange(from, to));
        } else {
            assert(now =~= all.subrange(from, all.len() as int));
        }
    } else if i > end.line {
        let head = whole_text(lines, i);
        assert(forall|k: int| 0 <= k < head.len() ==> all[k] == #[trigger] head[k]);
        assert(now =~= all.subrange(from, to));
    }
}

/// What is selected is the text between the two cursors, all of it and nothing else: the
/// lines are put together with newlines, and the selection is the part from the one place
/// to the other.
pub proof fn lemma_selects_between(lines: Seq<Seq<char>>, start: Cursor, end: Cursor)
    requires
        start.line <= end.line < lines.len(),
        start.line == end.line ==> start.index <= end.index,
    ensures
        0 <= place_of(lines, start) <= place_of(lines, end) <= whole_text(
            lines,
            lines.len() as int,
        ).len(),
        selected_bytes(lines, start, end, lines.len() as int) == whole_text(
            lines,
            lines.len() as int,
        ).subrange(place_of(lines, start), place_of(lines, end)),
{
    if start.line < end.line {
        lemma_begin_ascends(lines, start.line as int, end.line as int);
    } else {
        lemma_begin_ascends(lines, start.line as int, lines.len() as int);
    }
    lemma_selected_so_far(lines, start, end, lines.len() as int);
}

/// The two ends of a selection are its two cursors, the first one first.
pub proof fn lemma_ends_in_order(range: (Cursor, Cursor))
    ensures
        first_of(range) == range.0 && last_of(range) == range.1 || first_of(range) == range.1
            && last_of(range) == range.0,
        first_of(range).line <= last_of(range).line,
        first_of(range).line == last_of(range).line ==> first_of(range).index
            <= last_of(range).index,
{
}

} // verus!
