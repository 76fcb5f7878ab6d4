//! Terminal cells and rows of them.

use vstd::prelude::*;
use vstd::std_specs::ops::BitOrSpecImpl;
use crate::color::Color;

verus! {

/// A cell's style bits.
#[derive(Clone, Copy, Debug, PartialEq, Eq, Structural, Hash)]
pub struct CellStyle(pub u8);

impl CellStyle {
    /// No bit.
    pub const NONE: u8 = 0;

    /// The bit that draws from the family's bold face when one resolved.
    pub const BOLD: u8 = 1;

    /// The bit that draws from the family's italic face when one resolved.
    pub const ITALIC: u8 = 2;

    /// The bit that draws a line under the cell.
    pub const UNDERLINE: u8 = 4;

    /// The bit that draws a line through the cell.
    pub const STRIKE: u8 = 8;

    /// Every bit of `bits` is set here.
    pub open spec fn has(self, bits: CellStyle) -> bool {
        self.0 & bits.0 == bits.0
    }

    /// True when every bit of `bits` is set here.
    pub fn contains(self, bits: CellStyle) -> (yes: bool)
        ensures
            yes == self.has(bits),
    {
        self.0 & bits.0 == bits.0
    }

    /// The style with the bits of `bits` set.
    pub fn with(self, bits: CellStyle) -> (style: CellStyle)
        ensures
            style == CellStyle(self.0 | bits.0),
            style.has(self),
            style.has(bits),
    {
        proof {
            let a = self.0;
            let b = bits.0;
            assert((a | b) & a == a) by (bit_vector);
            assert((a | b) & b == b) by (bit_vector);
        }
        CellStyle(self.0 | bits.0)
    }

    /// The style with the bits of `bits` cleared.
    pub fn without(self, bits: CellStyle) -> (style: CellStyle)
        ensures
            style == CellStyle(self.0 & !bits.0),
            style.0 & bits.0 == 0,
            self.has(style),
    {
        proof {
            let a = self.0;
            let b = bits.0;
            assert((a & !b) & b == 0) by (bit_vector);
            assert(a & (a & !b) == a & !b) by (bit_vector);
        }
        CellStyle(self.0 & !bits.0)
    }

    /// Which of four faces a style draws from: 0 is regular, 1 bold, 2 italic and 3
    /// bold italic.
    pub open spec fn face_index(self) -> int {
        (if self.has(CellStyle(CellStyle::BOLD)) {
            1int
        } else {
            0
        }) + (if self.has(CellStyle(CellStyle::ITALIC)) {
            2int
        } else {
            0
        })
    }

    /// Which of a font's four faces this style draws from: regular, bold, italic, bold
    /// italic.
    pub fn face(self) -> (face: usize)
        ensures
            face == self.face_index(),
            face < 4,
    {
        proof {
            let a = self.0;
            assert((a & 1) == 0 || (a & 1) == 1) by (bit_vector);
            assert((a & 2) == 0 || (a & 2) == 2) by (bit_vector);
            assert((0usize | 0) == 0) by (bit_vector);
            assert((0usize | 2) == 2) by (bit_vector);
            assert((1usize | 0) == 1) by (bit_vector);
            assert((1usize | 2) == 3) by (bit_vector);
        }
        (self.0 & CellStyle::BOLD) as usize | (self.0 & CellStyle::ITALIC) as usize
    }
}

/// Setting bits and then clearing them leaves none of them, and keeps all others.
pub proof fn lemma_with_without(style: CellStyle, bits: CellStyle)
    ensures
        (style.0 | bits.0) & !bits.0 == style.0 & !bits.0,
        (style.0 & !bits.0) | bits.0 == style.0 | bits.0,
{
    let a = style.0;
    let b = bits.0;
    assert((a | b) & !b == a & !b) by (bit_vector);
    assert((a & !b) | b == a | b) by (bit_vector);
}

impl BitOrSpecImpl for CellStyle {
    open spec fn obeys_bitor_spec() -> bool {
        true
    }

    open spec fn bitor_req(self, rhs: CellStyle) -> bool {
        true
    }

    open spec fn bitor_spec(self, rhs: CellStyle) -> CellStyle {
        CellStyle(self.0 | rhs.0)
    }
}

impl core::ops::BitOr for CellStyle {
    type Output = CellStyle;

    fn bitor(self, rhs: CellStyle) -> (style: CellStyle) {
        self.with(rhs)
    }
}

/// One cell: a character, its colors, and its style bits.
///
/// A cell holds a single `char`. The rest of a grapheme cluster (combining marks,
/// joined sequences, variation selectors) lives beside the row.
#[derive(Clone, Copy, Debug, PartialEq)]
pub struct Cell {
    pub ch: char,
    pub fg: Color,
    /// `None` leaves whatever is behind the grid showing.
    pub bg: Option<Color>,
    pub style: CellStyle,
}

impl Cell {
    /// The `ch` of the second cell of a wide character: it draws nothing, and carries
    /// the colors of the cell it continues so background runs merge.
    pub const CONTINUATION: char = '\0';

    /// A plain cell.
    pub open spec fn plain(ch: char, fg: Color) -> Cell {
        Cell { ch, fg, bg: None, style: CellStyle(CellStyle::NONE) }
    }

    /// The blank cell: a white space on nothing.
    pub open spec fn blank() -> Cell {
        Cell::plain(' ', Color::spec_white())
    }

    /// A plain cell.
    pub fn new(ch: char, fg: Color) -> (cell: Cell)
        ensures
            cell == Cell::plain(ch, fg),
    {
        Cell { ch, fg, bg: None, style: CellStyle(CellStyle::NONE) }
    }

    /// The right half of a wide character.
    pub fn is_continuation(&self) -> (yes: bool)
        ensures
            yes == (self.ch == Cell::CONTINUATION),
    {
        self.ch == Cell::CONTINUATION
    }
}

impl Default for Cell {
    fn default() -> (cell: Cell)
        ensures
            cell == Cell::blank(),
    {
        Cell { ch: ' ', fg: Color::white(), bg: None, style: CellStyle(CellStyle::NONE) }
    }
}

/// What a row holds: its cells, and the whole text of those that carry more than one
/// `char`, by column.
pub ghost struct RowState {
    pub cells: Seq<Cell>,
    pub clusters: Map<int, Seq<char>>,
}

impl RowState {
    /// A row of blank cells.
    pub open spec fn blank(cols: int) -> RowState {
        RowState { cells: Seq::new(cols as nat, |i: int| Cell::blank()), clusters: Map::empty() }
    }

    /// The row cut off or filled up with blank cells to `cols` columns.
    pub open spec fn resized(self, cols: int) -> RowState {
        RowState {
            cells: Seq::new(
                cols as nat,
                |i: int|
                    if i < self.cells.len() {
                        self.cells[i]
                    } else {
                        Cell::blank()
                    },
            ),
            clusters: self.clusters.restrict(Set::new(|c: int| c < cols)),
        }
    }

    /// The row with one cell replaced; its cluster goes with it.
    pub open spec fn with_cell(self, col: int, cell: Cell) -> RowState {
        RowState { cells: self.cells.update(col, cell), clusters: self.clusters.remove(col) }
    }

    /// The row with one cell replaced by the base character of a cluster.
    pub open spec fn with_cluster(self, col: int, cell: Cell, text: Seq<char>) -> RowState {
        RowState { cells: self.cells.update(col, cell), clusters: self.clusters.insert(col, text) }
    }
}

/// A row of cells plus the multi-char clusters a few of them may carry, by column.
///
/// Plain text has one char per cell, so the list of clusters is mostly empty; it is
/// kept sorted by column.
pub struct Row {
    cells: Vec<Cell>,
    clusters: Vec<(u16, String)>,
}

spec fn ascending(clusters: Seq<(u16, String)>) -> bool {
    forall|i: int, j: int|
        0 <= i < j < clusters.len() ==> (#[trigger] clusters[i]).0 < (#[trigger] clusters[j]).0
}

spec fn place(clusters: Seq<(u16, String)>, col: int) -> int {
    choose|i: int| 0 <= i < clusters.len() && (#[trigger] clusters[i]).0 == col
}

spec fn lists(clusters: Seq<(u16, String)>, col: int) -> bool {
    exists|i: int| 0 <= i < clusters.len() && (#[trigger] clusters[i]).0 == col
}

spec fn by_column(clusters: Seq<(u16, String)>) -> Map<int, Seq<char>> {
    Map::new(|c: int| lists(clusters, c), |c: int| clusters[place(clusters, c)].1@)
}

proof fn lemma_place(clusters: Seq<(u16, String)>, i: int)
    requires
        ascending(clusters),
        0 <= i < clusters.len(),
    ensures
        lists(clusters, clusters[i].0 as int),
        place(clusters, clusters[i].0 as int) == i,
        by_column(clusters)[clusters[i].0 as int] == clusters[i].1@,
{
    let c = clusters[i].0 as int;
    let p = place(clusters, c);
    assert(clusters[p].0 == c);
    if p < i {
        assert(clusters[p].0 < clusters[i].0);
    } else if i < p {
        assert(clusters[i].0 < clusters[p].0);
    }
}

impl View for Row {
    type V = RowState;

    closed spec fn view(&self) -> RowState {
        RowState { cells: self.cells@, clusters: by_column(self.clusters@) }
    }
}

impl Row {
    /// The clusters are sorted by column.
    pub closed spec fn wf(&self) -> bool {
        ascending(self.clusters@)
    }

    /// A row of blank cells.
    pub fn blank(cols: u16) -> (row: Row)
        ensures
            row.wf(),
            row@ == RowState::blank(cols as int),
    {
        let mut cells: Vec<Cell> = Vec::new();
        cells.resize(cols as usize, Cell::default());
        let row = Row { cells, clusters: Vec::new() };
        assert(row@.cells =~= RowState::blank(cols as int).cells);
        assert(row@.clusters =~= Map::empty());
        row
    }

    /// The number of columns.
    pub fn len(&self) -> (cols: usize)
        ensures
            cols == self@.cells.len(),
    {
        self.cells.len()
    }

    /// The cell in a column.
    pub fn cell(&self, col: usize) -> (cell: Cell)
        requires
            col < self@.cells.len(),
        ensures
            cell == self@.cells[col as int],
    {
        self.cells[col]
    }

    /// The place of a column's cluster in the list, or the place where it would go.
    fn search(&self, col: u16) -> (found: Result<usize, usize>)
        requires
            self.wf(),
        ensures
            match found {
                Ok(i) => i < self.clusters@.len() && self.clusters@[i as int].0 == col,
                Err(i) => {
                    &&& i <= self.clusters@.len()
                    &&& forall|k: int| 0 <= k < i ==> (#[trigger] self.clusters@[k]).0 < col
                    &&& forall|k: int|
                        i <= k < self.clusters@.len() ==> (#[trigger] self.clusters@[k]).0 > col
                },
            },
    {
        let mut low: usize = 0;
        let mut high: usize = self.clusters.len();
        while low < high
            invariant
                low <= high <= self.clusters@.len(),
                ascending(self.clusters@),
                forall|k: int| 0 <= k < low ==> (#[trigger] self.clusters@[k]).0 < col,
                forall|k: int|
                    high <= k < self.clusters@.len() ==> (#[trigger] self.clusters@[k]).0 > col,
            decreases high - low,
        {
            let mid: usize = low + (high - low) / 2;
            let at: u16 = self.clusters[mid].0;
            if at == col {
                return Ok(mid);
            } else if at < col {
                low = mid + 1;
            } else {
                high = mid;
            }
        }
        Err(low)
    }

    /// The whole text of a cell that carries more than one `char`.
    pub fn cluster(&self, col: u16) -> (text: Option<&str>)
        requires
            self.wf(),
        ensures
            text is Some <==> self@.clusters.contains_key(col as int),
            text matches Some(t) ==> t@ == self@.clusters[col as int],
    {
        match self.search(col) {
            Ok(i) => {
                proof {
                    lemma_place(self.clusters@, i as int);
                }
                Some(self.clusters[i].1.as_str())
            },
            Err(i) => None,
        }
    }

    /// Replaces a cell; its cluster goes with it.
    pub fn set(&mut self, col: u16, cell: Cell)
        requires
            old(self).wf(),
            col < old(self)@.cells.len(),
        ensures
            final(self).wf(),
            final(self)@ == old(self)@.with_cell(col as int, cell),
    {
        self.cells.set(col as usize, cell);
        self.clear_cluster(col);
    }

    /// Replaces a cell by the base character of a cluster.
    pub fn set_with_cluster(&mut self, col: u16, cell: Cell, text: &str)
        requires
            old(self).wf(),
            col < old(self)@.cells.len(),
        ensures
            final(self).wf(),
            final(self)@ == old(self)@.with_cluster(col as int, cell, text@),
    {
        self.cells.set(col as usize, cell);
        self.set_cluster(col, text);
    }

    fn set_cluster(&mut self, col: u16, text: &str)
        requires
            old(self).wf(),
        ensures
            final(self).wf(),
            final(self)@ == (RowState {
                clusters: old(self)@.clusters.insert(col as int, text@),
                ..old(self)@
            }),
    {
        let ghost before = self.clusters@;
        let entry = (col, text.to_owned());
        match self.search(col) {
            Ok(i) => {
                self.clusters.set(i, entry);
                proof {
                    let after = self.clusters@;
                    assert forall|c: int| by_column(after).contains_key(c) <==> by_column(
                        before,
                    ).insert(col as int, text@).contains_key(c) by {
                        if lists(before, c) {
                            let k = place(before, c);
                            assert(after[k].0 == c);
                        }
                        if lists(after, c) {
                            let k = place(after, c);
                            assert(before[k].0 == c);
                        }
                        lemma_place(after, i as int);
                    }
                    assert forall|c: int| by_column(after).contains_key(c) implies by_column(
                        after,
                    )[c] == by_column(before).insert(col as int, text@)[c] by {
                        let k = place(after, c);
                        lemma_place(after, k);
                        lemma_place(before, k);
                        if c == col {
                            lemma_place(after, i as int);
                        }
                    }
                    assert(by_column(after) =~= by_column(before).insert(col as int, text@));
                }
            },
            Err(i) => {
                self.clusters.insert(i, entry);
                proof {
                    let after = self.clusters@;
                    assert(after == before.insert(i as int, entry));
                    assert(ascending(after)) by {
                        assert forall|a: int, b: int| 0 <= a < b < after.len() implies (
                        #[trigger] after[a]).0 < (#[trigger] after[b]).0 by {
                            let pa = if a < i {
                                a
                            } else {
                                a - 1
                            };
                            let pb = if b < i {
                                b
                            } else {
                                b - 1
                            };
                            if a != i {
                                assert(after[a] == before[pa]);
                            }
                            if b != i {
                                assert(after[b] == before[pb]);
                            }
                        }
                    }
                    lemma_place(after, i as int);
                    assert forall|c: int| by_column(after).contains_key(c) <==> by_column(
                        before,
                    ).insert(col as int, text@).contains_key(c) by {
                        if lists(before, c) {
                            let k = place(before, c);
                            let m = if k < i {
                                k
                            } else {
                                k + 1
                            };
                            assert(after[m].0 == c);
                        }
                        if lists(after, c) {
                            let k = place(after, c);
                            if k != i {
                                let m = if k < i {
                                    k
                                } else {
                                    k - 1
                                };
                                assert(before[m].0 == c);
                            }
                        }
                    }
                    assert forall|c: int| by_column(after).contains_key(c) implies by_column(
                        after,
                    )[c] == by_column(before).insert(col as int, text@)[c] by {
                        let k = place(after, c);
                        lemma_place(after, k);
                        if k != i {
                            let m = if k < i {
                                k
                            } else {
                                k - 1
                            };
                            assert(before[m] == after[k]);
                            lemma_place(before, m);
                        }
                    }
                    assert(by_column(after) =~= by_column(before).insert(col as int, text@));
                }
            },
        }
    }

    fn clear_cluster(&mut self, col: u16)
        requires
            old(self).wf(),
        ensures
            final(self).wf(),
            final(self)@ == (RowState {
                clusters: old(self)@.clusters.remove(col as int),
                ..old(self)@
            }),
    {
        let ghost before = self.clusters@;
        match self.search(col) {
            Ok(i) => {
                let dropped = self.clusters.remove(i);
                proof {
                    let after = self.clusters@;
                    assert(after == before.remove(i as int));
                    lemma_place(before, i as int);
                    assert forall|c: int| by_column(after).contains_key(c) <==> by_column(
                        before,
                    ).remove(col as int).contains_key(c) by {
                        if lists(before, c) && c != col {
                            let k = place(before, c);
                            let m = if k < i {
                                k
                            } else {
                                k - 1
                            };
                            assert(after[m].0 == c);
                        }
                        if lists(after, c) {
                            let k = place(after, c);
                            let m = if k < i {
                                k
                            } else {
                                k + 1
                            };
                            assert(before[m].0 == c);
                            if m < i {
                                assert(before[m].0 < before[i as int].0);
                            } else {
                                assert(before[i as int].0 < before[m].0);
                            }
                        }
                    }
                    assert forall|c: int| by_column(after).contains_key(c) implies by_column(
                        after,
                    )[c] == by_column(before).remove(col as int)[c] by {
                        let k = place(after, c);
                        lemma_place(after, k);
                        let m = if k < i {
                            k
                        } else {
                            k + 1
                        };
                        assert(before[m] == after[k]);
                        lemma_place(before, m);
                    }
                    assert(by_column(after) =~= by_column(before).remove(col as int));
                }
            },
            Err(i) => {
                assert(by_column(before).remove(col as int) =~= by_column(before));
            },
        }
    }

    /// Blanks every cell.
    pub fn reset(&mut self, cols: u16)
        ensures
            final(self).wf(),
            final(self)@ == RowState::blank(cols as int),
    {
        *self = Row::blank(cols);
    }

    /// Cuts the row off or fills it up with blank cells.
    pub fn resize(&mut self, cols: u16)
        requires
            old(self).wf(),
        ensures
            final(self).wf(),
            final(self)@ == old(self)@.resized(cols as int),
    {
        let ghost before = self.clusters@;
        self.cells.resize(cols as usize, Cell::default());
        // The list is sorted, so the clusters past the edge are its tail.
        let mut keep: usize = self.clusters.len();
        while keep > 0 && self.clusters[keep - 1].0 >= cols
            invariant
                keep <= self.clusters@.len(),
                forall|k: int|
                    keep <= k < self.clusters@.len() ==> (#[trigger] self.clusters@[k]).0 >= cols,
            decreases keep,
        {
            keep = keep - 1;
        }
        self.clusters.truncate(keep);
        proof {
            let after = self.clusters@;
            assert(after =~= before.take(keep as int));
            assert(old(self)@.cells == old(self).cells@);
            assert(self.cells@ =~= old(self)@.resized(cols as int).cells) by {
                let n = old(self).cells@.len();
                assert forall|i: int| 0 <= i < cols implies self.cells@[i] == old(self)@.resized(
                    cols as int,
                ).cells[i] by {
                    if i < n {
                        if cols > n {
                            assert(self.cells@.subrange(0, n as int)[i] == self.cells@[i]);
                        }
                    }
                }
            }
            assert forall|c: int| by_column(after).contains_key(c) <==> (by_column(
                before,
            ).contains_key(c) && c < cols) by {
                if lists(after, c) {
                    let k = place(after, c);
                    assert(before[k].0 == c);
                    if k < keep - 1 {
                        assert(before[k].0 < before[keep - 1].0);
                    }
                }
                if lists(before, c) && c < cols {
                    let k = place(before, c);
                    assert(after[k].0 == c);
                }
            }
            assert forall|c: int| by_column(after).contains_key(c) implies by_column(after)[c]
                == by_column(before)[c] by {
                let k = place(after, c);
                lemma_place(after, k);
                lemma_place(before, k);
            }
            assert(by_column(after) =~= by_column(before).restrict(Set::new(|c: int| c < cols)));
        }
    }
}

/// A blank cell is a white space without a background and without a style, and a plain one
/// has nothing but its character and its color.
pub proof fn lemma_plain_cells(ch: char, fg: Color)
    ensures
        Cell::blank().ch == ' ',
        Cell::blank().fg == Color::spec_white(),
        Cell::blank().bg is None,
        Cell::blank().style.0 == 0,
        Cell::plain(ch, fg).ch == ch,
        Cell::plain(ch, fg).fg == fg,
        Cell::plain(ch, fg).bg is None,
        Cell::plain(ch, fg).style.0 == 0,
{
}

/// Replacing a cell replaces that one alone, and drops its cluster or puts another in its
/// place; every other column stays.
pub proof fn lemma_cell_replaced(row: RowState, col: int, cell: Cell, text: Seq<char>, c: int)
    requires
        0 <= col < row.cells.len(),
        0 <= c < row.cells.len(),
    ensures
        row.with_cell(col, cell).cells.len() == row.cells.len(),
        row.with_cell(col, cell).cells[col] == cell,
        !row.with_cell(col, cell).clusters.contains_key(col),
        row.with_cluster(col, cell, text).cells.len() == row.cells.len(),
        row.with_cluster(col, cell, text).cells[col] == cell,
        row.with_cluster(col, cell, text).clusters.contains_key(col),
        row.with_cluster(col, cell, text).clusters[col] == text,
        c != col ==> {
            &&& row.with_cell(col, cell).cells[c] == row.cells[c]
            &&& row.with_cluster(col, cell, text).cells[c] == row.cells[c]
            &&& row.with_cell(col, cell).clusters.contains_key(c) == row.clusters.contains_key(c)
            &&& row.with_cluster(col, cell, text).clusters.contains_key(c)
                == row.clusters.contains_key(c)
            &&& row.clusters.contains_key(c) ==> row.with_cell(col, cell).clusters[c]
                == row.clusters[c] && row.with_cluster(col, cell, text).clusters[c]
                == row.clusters[c]
        },
{
}

/// A style draws from the bold faces exactly where its bold bit is set, and from the italic
/// ones exactly where its italic bit is.
pub proof fn lemma_faces(style: CellStyle)
    ensures
        0 <= style.face_index() < 4,
        style.face_index() % 2 == 1 <==> style.0 & 1 == 1,
        style.face_index() / 2 == 1 <==> style.0 & 2 == 2,
{
}

/// A row of another width keeps every column that both widths have, cell and cluster, is
/// blank from there on, and has no cluster past its last column.
pub proof fn lemma_row_resized(row: RowState, cols: int, c: int)
    requires
        0 <= cols,
    ensures
        row.resized(cols).cells.len() == cols,
        0 <= c < cols && c < row.cells.len() ==> row.resized(cols).cells[c] == row.cells[c],
        row.cells.len() <= c < cols ==> row.resized(cols).cells[c].ch == ' ' && row.resized(
            cols,
        ).cells[c].bg is None && row.resized(cols).cells[c].style.0 == 0,
        row.resized(cols).clusters.contains_key(c) <==> row.clusters.contains_key(c) && c < cols,
        row.resized(cols).clusters.contains_key(c) ==> row.resized(cols).clusters[c]
            == row.clusters[c],
        RowState::blank(cols).cells.len() == cols,
        0 <= c < cols ==> RowState::blank(cols).cells[c].ch == ' ' && RowState::blank(
            cols,
        ).cells[c].bg is None,
        !RowState::blank(cols).clusters.contains_key(c),
{
}

} // verus!
