//! Terminal grid: the model of a monospace pane with scrollback.
//!
//! A log pane or a terminal emulator knows exactly where every glyph goes before it
//! asks anyone: cells are a fixed size and the font is monospace. Wide characters
//! take two cells, of which the second is a continuation and draws nothing.

use std::collections::VecDeque;
use vstd::prelude::*;
use vstd::string::*;
use crate::cells;
use crate::cells::{Cell, CellStyle, Row};
use crate::color::Color;
use crate::graphemes;
use crate::width;

verus! {

/// What a grid holds. `screen` is the rows on screen, top first, and `scrollback` the
/// rows that scrolled off the top, oldest first.
pub ghost struct GridState {
    pub cols: int,
    pub screen: Seq<cells::RowState>,
    pub scrollback: Seq<cells::RowState>,
    pub limit: int,
    pub view_offset: int,
    pub dirty: bool,
}

/// What text is printed with.
pub ghost struct Ink {
    pub fg: Color,
    pub bg: Option<Color>,
    pub style: CellStyle,
}

impl Ink {
    /// A cell of this ink.
    pub open spec fn cell(self, ch: char) -> Cell {
        Cell { ch, fg: self.fg, bg: self.bg, style: self.style }
    }
}

/// Prints clusters into a row of `cols` columns from column `at` on: the row, and the
/// column after the last cell written.
///
/// A cluster takes one cell, or two where it is wide. Control characters are skipped.
/// Nothing wraps: what runs past the last column is clipped, and a wide cluster that
/// would straddle the edge leaves a blank there and ends the printing.
pub open spec fn printed(
    row: cells::RowState,
    cols: int,
    at: int,
    clusters: Seq<Seq<char>>,
    ink: Ink,
) -> (cells::RowState, int)
    decreases clusters.len(),
{
    if clusters.len() == 0 {
        (row, at)
    } else {
        let cluster = clusters[0];
        let rest = clusters.drop_first();
        if cluster.len() == 0 || width::control_code(cluster[0] as int) {
            printed(row, cols, at, rest, ink)
        } else if at >= cols {
            (row, at)
        } else {
            let taken = width::cluster_width_of(cluster);
            if at + taken > cols {
                (row.with_cell(at, ink.cell(' ')), cols)
            } else {
                let base = ink.cell(cluster[0]);
                let first = if cluster.len() > 1 {
                    row.with_cluster(at, base, cluster)
                } else {
                    row.with_cell(at, base)
                };
                let both = if taken == 2 {
                    first.with_cell(at + 1, ink.cell(Cell::CONTINUATION))
                } else {
                    first
                };
                printed(both, cols, at + taken, rest, ink)
            }
        }
    }
}

impl GridState {
    /// Every row has `cols` columns, the scrollback keeps to its limit, and the
    /// viewport is scrolled back no farther than the scrollback goes.
    pub open spec fn valid(self) -> bool {
        &&& 0 <= self.cols <= u16::MAX
        &&& self.screen.len() <= u16::MAX
        &&& forall|i: int|
            0 <= i < self.screen.len() ==> (#[trigger] self.screen[i]).cells.len() == self.cols
        &&& forall|i: int|
            0 <= i < self.scrollback.len() ==> (#[trigger] self.scrollback[i]).cells.len()
                == self.cols
        &&& self.scrollback.len() <= self.limit
        &&& 0 <= self.view_offset <= self.scrollback.len()
    }

    /// A blank grid.
    pub open spec fn fresh(cols: int, rows: int, limit: int) -> GridState {
        GridState {
            cols,
            screen: Seq::new(rows as nat, |i: int| cells::RowState::blank(cols)),
            scrollback: Seq::empty(),
            limit,
            view_offset: 0,
            dirty: true,
        }
    }

    /// The grid with `row` put at the end of the scrollback, whose oldest row falls out
    /// where it is full. The viewport then follows the text by one row.
    pub open spec fn banked(self, row: cells::RowState) -> GridState {
        if self.limit == 0 {
            self
        } else if self.scrollback.len() == self.limit {
            GridState {
                scrollback: self.scrollback.drop_first().push(row),
                view_offset: if self.view_offset > 0 {
                    self.view_offset - 1
                } else {
                    0
                },
                ..self
            }
        } else {
            GridState { scrollback: self.scrollback.push(row), ..self }
        }
    }

    /// The grid once its `n` top rows have gone to the scrollback, with nothing in
    /// their place.
    pub open spec fn spilled(self, n: int) -> GridState
        decreases n,
    {
        if n <= 0 {
            self
        } else {
            let before = self.spilled(n - 1);
            GridState { screen: before.screen.drop_first(), ..before.banked(before.screen[0]) }
        }
    }

    /// The grid with blank rows at the bottom, up to `rows`.
    pub open spec fn filled(self, rows: int) -> GridState {
        GridState {
            screen: Seq::new(
                if self.screen.len() < rows {
                    rows as nat
                } else {
                    self.screen.len()
                },
                |i: int|
                    if i < self.screen.len() {
                        self.screen[i]
                    } else {
                        cells::RowState::blank(self.cols)
                    },
            ),
            ..self
        }
    }

    /// The grid with blank rows at the top, up to `rows`.
    pub open spec fn topped(self, rows: int) -> GridState {
        let more = if self.screen.len() < rows {
            rows - self.screen.len()
        } else {
            0
        };
        GridState {
            screen: Seq::new(
                (more + self.screen.len()) as nat,
                |i: int|
                    if i < more {
                        cells::RowState::blank(self.cols)
                    } else {
                        self.screen[i - more]
                    },
            ),
            ..self
        }
    }

    /// The grid with every row cut off or filled up to `cols` columns.
    pub open spec fn recut(self, cols: int) -> GridState {
        if cols == self.cols {
            self
        } else {
            GridState {
                cols,
                screen: Seq::new(self.screen.len(), |i: int| self.screen[i].resized(cols)),
                scrollback: Seq::new(
                    self.scrollback.len(),
                    |i: int| self.scrollback[i].resized(cols),
                ),
                ..self
            }
        }
    }

    /// The grid after a resize, with its content kept at the bottom left: surplus rows at
    /// the top go to the scrollback, and new rows at the top and new columns at the right
    /// come up blank.
    pub open spec fn resized(self, cols: int, rows: int) -> GridState {
        if cols == self.cols && rows == self.screen.len() {
            self
        } else {
            let recut = self.recut(cols);
            let cut = recut.spilled(recut.screen.len() - rows).topped(rows);
            GridState {
                view_offset: if cut.view_offset < cut.scrollback.len() {
                    cut.view_offset
                } else {
                    cut.scrollback.len() as int
                },
                dirty: true,
                ..cut
            }
        }
    }

    /// The number of rows that scrolling by `n` moves.
    pub open spec fn moves(self, n: int) -> int {
        if n < self.screen.len() {
            n
        } else {
            self.screen.len() as int
        }
    }

    /// The grid after its top rows have scrolled off and blank ones have come up at the
    /// bottom. A viewport that is scrolled back stays on its text until the scrollback
    /// drops that text.
    pub open spec fn scrolled(self, n: int) -> GridState {
        let n = self.moves(n);
        let rows = self.screen.len() as int;
        let moved = self.spilled(n).filled(rows);
        let held = moved.scrollback.len() as int;
        GridState {
            view_offset: if self.view_offset == 0 {
                0
            } else if self.view_offset + n < held {
                self.view_offset + n
            } else {
                held
            },
            dirty: true,
            ..moved
        }
    }

    /// The row shown at a viewport row: scrollback while the viewport is scrolled back
    /// past it, the screen otherwise.
    pub open spec fn shown(self, row: int) -> Option<cells::RowState> {
        if row < self.view_offset {
            Some(self.scrollback[self.scrollback.len() - (self.view_offset - row)])
        } else if row - self.view_offset < self.screen.len() {
            Some(self.screen[row - self.view_offset])
        } else {
            None
        }
    }

    /// The grid after clusters were printed at a column and a row of the screen.
    pub open spec fn with_print(
        self,
        col: int,
        row: int,
        clusters: Seq<Seq<char>>,
        ink: Ink,
    ) -> GridState {
        if row < self.screen.len() {
            GridState {
                screen: self.screen.update(
                    row,
                    printed(self.screen[row], self.cols, col, clusters, ink).0,
                ),
                dirty: true,
                ..self
            }
        } else {
            self
        }
    }

    /// The column after the last cell that the same printing writes.
    pub open spec fn print_end(
        self,
        col: int,
        row: int,
        clusters: Seq<Seq<char>>,
        ink: Ink,
    ) -> int {
        if row < self.screen.len() {
            printed(self.screen[row], self.cols, col, clusters, ink).1
        } else {
            col
        }
    }
}

/// Printing never moves left and never runs past the last column: it leaves every column
/// before the first one as it was, and ends inside the row where it starts inside it.
pub proof fn lemma_print_clips(
    row: cells::RowState,
    cols: int,
    at: int,
    clusters: Seq<Seq<char>>,
    ink: Ink,
)
    requires
        row.cells.len() == cols,
        0 <= at,
    ensures
        ({
            let (after, end) = printed(row, cols, at, clusters, ink);
            &&& after.cells.len() == cols
            &&& at <= end
            &&& at <= cols ==> end <= cols
            &&& cols <= at ==> end == at && after == row
            &&& forall|c: int|
                0 <= c < at && c < cols ==> #[trigger] after.cells[c] == row.cells[c]
            &&& forall|c: int|
                c < at ==> (#[trigger] after.clusters.contains_key(c) == row.clusters.contains_key(
                    c,
                )) && (row.clusters.contains_key(c) ==> after.clusters[c] == row.clusters[c])
        }),
    decreases clusters.len(),
{
    if clusters.len() > 0 {
        let cluster = clusters[0];
        let rest = clusters.drop_first();
        if cluster.len() == 0 || width::control_code(cluster[0] as int) {
            lemma_print_clips(row, cols, at, rest, ink);
        } else if at < cols {
            let taken = width::cluster_width_of(cluster);
            if at + taken <= cols {
                let base = ink.cell(cluster[0]);
                let first = if cluster.len() > 1 {
                    row.with_cluster(at, base, cluster)
                } else {
                    row.with_cell(at, base)
                };
                let both = if taken == 2 {
                    first.with_cell(at + 1, ink.cell(Cell::CONTINUATION))
                } else {
                    first
                };
                lemma_print_clips(both, cols, at + taken, rest, ink);
            }
        }
    }
}

proof fn lemma_banked(state: GridState, row: cells::RowState)
    requires
        state.valid(),
        row.cells.len() == state.cols,
    ensures
        state.banked(row).valid(),
        state.banked(row).screen == state.screen,
        state.banked(row).cols == state.cols,
        state.banked(row).limit == state.limit,
{
}

proof fn lemma_spilled(state: GridState, n: int)
    requires
        state.valid(),
        n <= state.screen.len(),
    ensures
        state.spilled(n).valid(),
        state.spilled(n).cols == state.cols,
        state.spilled(n).limit == state.limit,
        state.spilled(n).dirty == state.dirty,
        state.view_offset == 0 ==> state.spilled(n).view_offset == 0,
        state.spilled(n).screen == state.screen.skip(
            if n > 0 {
                n
            } else {
                0
            },
        ),
    decreases n,
{
    if n > 0 {
        lemma_spilled(state, n - 1);
        let before = state.spilled(n - 1);
        lemma_banked(before, before.screen[0]);
        assert(before.screen.drop_first() =~= state.screen.skip(n));
    } else {
        assert(state.screen.skip(0) =~= state.screen);
    }
}

/// The rows of a spill are at the end of the scrollback, in order, as far as the limit
/// lets them be.
proof fn lemma_spilled_tail(state: GridState, n: int, back: int)
    requires
        state.valid(),
        0 <= n <= state.screen.len(),
        0 < back <= state.spilled(n).scrollback.len(),
        state.limit > 0,
    ensures
        back <= n ==> state.spilled(n).scrollback[state.spilled(n).scrollback.len() - back]
            == state.screen[n - back],
        back > n ==> back - n <= state.scrollback.len()
            && state.spilled(n).scrollback[state.spilled(n).scrollback.len() - back]
            == state.scrollback[state.scrollback.len() - (back - n)],
    decreases n,
{
    if n > 0 {
        lemma_spilled(state, n - 1);
        let before = state.spilled(n - 1);
        let row = before.screen[0];
        assert(row == state.screen[n - 1]);
        let after = before.banked(row);
        if back > 1 {
            assert(after.scrollback[after.scrollback.len() - back]
                == before.scrollback[before.scrollback.len() - (back - 1)]);
            lemma_spilled_tail(state, n - 1, back - 1);
        }
    }
}

/// Scrolling leaves a viewport that is scrolled back on its text: every row that it
/// shows is the row it showed before, as long as the scrollback still holds the topmost
/// one.
pub proof fn lemma_scrolled_view_stays(state: GridState, n: int, row: int)
    requires
        state.valid(),
        0 <= n,
        0 < state.view_offset,
        state.view_offset + state.moves(n) <= state.scrolled(n).scrollback.len(),
        0 <= row < state.screen.len(),
    ensures
        state.scrolled(n).shown(row) == state.shown(row),
{
    let k = state.moves(n);
    lemma_spilled(state, k);
    let after = state.scrolled(n);
    let spilled = state.spilled(k);
    assert(after.scrollback == spilled.scrollback);
    let back = after.view_offset - row;
    if row < state.view_offset {
        lemma_spilled_tail(state, k, back);
    } else if back > 0 {
        lemma_spilled_tail(state, k, back);
    }
}

/// Scrolling moves the screen up by as many rows as it is told and has, with blank rows
/// coming up below, and the rows that leave are the latest of the scrollback, in order, as
/// far as its limit lets them be.
pub proof fn lemma_scrolling_banks_rows(state: GridState, n: int, i: int)
    requires
        state.valid(),
        0 <= n,
        0 <= i < state.screen.len(),
    ensures
        ({
            let k = state.moves(n);
            let after = state.scrolled(n);
            &&& after.valid()
            &&& after.screen.len() == state.screen.len()
            &&& after.screen[i] == (if i + k < state.screen.len() {
                state.screen[i + k]
            } else {
                cells::RowState::blank(state.cols)
            })
            &&& i < k && k - i <= after.scrollback.len() ==> after.scrollback[after.scrollback.len()
                - (k - i)] == state.screen[i]
            &&& state.limit > 0 && k > 0 ==> after.scrollback.len() > 0
        }),
{
    let k = state.moves(n);
    lemma_spilled(state, k);
    let spilled = state.spilled(k);
    let after = state.scrolled(n);
    assert(after.scrollback == spilled.scrollback);
    if i < k && k - i <= after.scrollback.len() {
        lemma_spilled_tail(state, k, k - i);
    }
    if k > 0 {
        lemma_spilled(state, k - 1);
    }
}

/// A resize keeps the content at the bottom of the screen and banks its top: with as many
/// columns, the last rows that fit stay, the others are the latest of the scrollback, in
/// order, as far as its limit lets them be, and rows that are new come up blank above.
pub proof fn lemma_resize_keeps_bottom(state: GridState, rows: int, i: int)
    requires
        state.valid(),
        0 <= rows <= u16::MAX,
    ensures
        ({
            let after = state.resized(state.cols, rows);
            let gone = state.screen.len() - rows;
            &&& after.valid()
            &&& after.screen.len() == rows
            &&& gone >= 0 && 0 <= i < rows ==> after.screen[i] == state.screen[gone + i]
            &&& gone >= 0 && 0 <= i < gone && gone - i <= after.scrollback.len()
                ==> after.scrollback[after.scrollback.len() - (gone - i)] == state.screen[i]
            &&& gone < 0 ==> after.scrollback == state.scrollback
            &&& gone < 0 && 0 <= i < rows ==> after.screen[i] == (if i < rows
                - state.screen.len() {
                cells::RowState::blank(state.cols)
            } else {
                state.screen[i - (rows - state.screen.len())]
            })
        }),
{
    let gone = state.screen.len() - rows;
    lemma_spilled(state, gone);
    let spilled = state.spilled(gone);
    let after = state.resized(state.cols, rows);
    assert(gone != 0 ==> after.scrollback == spilled.scrollback);
    if gone > 0 && 0 <= i < gone && gone - i <= after.scrollback.len() {
        lemma_spilled_tail(state, gone, gone - i);
    }
}

/// The row holds what another one held, on `cols` columns: every column that both have is
/// as it was, cell and cluster, and every further one is a white space on nothing, without
/// a cluster unless there was one before.
pub open spec fn holds_text(after: cells::RowState, before: cells::RowState, cols: int) -> bool {
    &&& after.cells.len() == cols
    &&& forall|c: int|
        0 <= c < cols && c < before.cells.len() ==> #[trigger] after.cells[c] == before.cells[c]
    &&& forall|c: int|
        before.cells.len() <= c < cols ==> (#[trigger] after.cells[c]).ch == ' '
            && after.cells[c].fg == Color::spec_white() && after.cells[c].bg is None
            && after.cells[c].style.0 == 0
    &&& forall|c: int|
        c < cols ==> #[trigger] after.clusters.contains_key(c) == before.clusters.contains_key(c)
    &&& forall|c: int|
        c < cols && #[trigger] after.clusters.contains_key(c) ==> after.clusters[c]
            == before.clusters[c]
}

/// Nothing but white spaces on nothing, on `cols` columns.
pub open spec fn empty_row(row: cells::RowState, cols: int) -> bool {
    &&& row.cells.len() == cols
    &&& forall|c: int|
        0 <= c < cols ==> (#[trigger] row.cells[c]).ch == ' ' && row.cells[c].fg
            == Color::spec_white() && row.cells[c].bg is None && row.cells[c].style.0 == 0
    &&& forall|c: int| !#[trigger] row.clusters.contains_key(c)
}

/// Every cluster of the row belongs to one of its columns.
pub open spec fn tidy_row(row: cells::RowState) -> bool {
    forall|c: int| #[trigger] row.clusters.contains_key(c) ==> 0 <= c < row.cells.len()
}

impl GridState {
    /// Every cluster belongs to a column.
    pub open spec fn tidy(self) -> bool {
        &&& forall|i: int| 0 <= i < self.screen.len() ==> tidy_row(#[trigger] self.screen[i])
        &&& forall|i: int|
            0 <= i < self.scrollback.len() ==> tidy_row(#[trigger] self.scrollback[i])
    }
}

proof fn lemma_spilled_len(state: GridState, n: int)
    requires
        state.valid(),
        0 <= n <= state.screen.len(),
    ensures
        ({
            let after = state.spilled(n);
            let wanted = state.scrollback.len() + n;
            &&& after.scrollback.len() == (if wanted < state.limit {
                wanted
            } else {
                state.limit
            })
            &&& state.limit > 0 ==> after.view_offset == (if wanted <= state.limit {
                state.view_offset
            } else if wanted - state.limit < state.view_offset {
                state.view_offset - (wanted - state.limit)
            } else {
                0
            })
        }),
    decreases n,
{
    if n > 0 {
        lemma_spilled(state, n - 1);
        lemma_spilled_len(state, n - 1);
        let before = state.spilled(n - 1);
        lemma_banked(before, before.screen[0]);
    }
}

proof fn lemma_recut(state: GridState, cols: int)
    requires
        state.valid(),
        0 <= cols <= u16::MAX,
    ensures
        ({
            let after = state.recut(cols);
            &&& after.valid()
            &&& after.cols == cols
            &&& after.limit == state.limit
            &&& after.view_offset == state.view_offset
            &&& after.screen.len() == state.screen.len()
            &&& after.scrollback.len() == state.scrollback.len()
            &&& forall|i: int|
                0 <= i < state.screen.len() ==> holds_text(
                    #[trigger] after.screen[i],
                    state.screen[i],
                    cols,
                )
            &&& forall|i: int|
                0 <= i < state.scrollback.len() ==> holds_text(
                    #[trigger] after.scrollback[i],
                    state.scrollback[i],
                    cols,
                )
        }),
{
}

/// A resize to any number of columns and rows keeps the text at the bottom left. Counted
/// from the bottom, every row of the screen that still fits is a row of the new screen; the
/// rows above it follow into the scrollback, in order, before those that it held already,
/// as far back as the limit goes; and each of them holds what it held. Rows that are new
/// come up empty at the top.
#[verifier::spinoff_prover]
pub proof fn lemma_resize_keeps_text(state: GridState, cols: int, rows: int)
    requires
        state.valid(),
        0 <= cols <= u16::MAX,
        0 <= rows <= u16::MAX,
    ensures
        ({
            let after = state.resized(cols, rows);
            let had = state.screen.len() as int;
            let gone = if had > rows {
                had - rows
            } else {
                0
            };
            let wanted = state.scrollback.len() + gone;
            let held = after.scrollback.len() as int;
            &&& after.valid()
            &&& after.cols == cols
            &&& after.limit == state.limit
            &&& after.screen.len() == rows
            &&& held == (if wanted < state.limit {
                wanted
            } else {
                state.limit
            })
            &&& forall|i: int|
                0 <= i < rows && 0 <= had - (rows - i) ==> holds_text(
                    #[trigger] after.screen[i],
                    state.screen[had - (rows - i)],
                    cols,
                )
            &&& forall|i: int|
                0 <= i < rows - had ==> empty_row(#[trigger] after.screen[i], cols)
            &&& forall|i: int|
                0 <= i < held && held - i <= gone ==> holds_text(
                    #[trigger] after.scrollback[i],
                    state.screen[gone - (held - i)],
                    cols,
                )
            &&& forall|i: int|
                0 <= i < held && held - i > gone ==> holds_text(
                    #[trigger] after.scrollback[i],
                    state.scrollback[wanted - (held - i)],
                    cols,
                )
            &&& after.dirty == (state.dirty || cols != state.cols || rows != had)
        }),
{
    let after = state.resized(cols, rows);
    let had = state.screen.len() as int;
    let recut = state.recut(cols);
    lemma_recut(state, cols);
    let gone = had - rows;
    lemma_spilled(recut, gone);
    let n = if gone > 0 {
        gone
    } else {
        0
    };
    lemma_spilled_len(recut, n);
    let spilled = recut.spilled(gone);
    assert(spilled == recut.spilled(n));
    if cols == state.cols && rows == had {
        assert(after == state);
    } else {
        assert(after.scrollback == spilled.scrollback);
        assert(after.screen == spilled.topped(rows).screen);
    }
    let held = after.scrollback.len() as int;
    let wanted = state.scrollback.len() + n;
    assert forall|i: int| 0 <= i < held && held - i <= n implies holds_text(
        #[trigger] after.scrollback[i],
        state.screen[n - (held - i)],
        cols,
    ) by {
        lemma_spilled_tail(recut, n, held - i);
    }
    assert forall|i: int| 0 <= i < held && held - i > n implies holds_text(
        #[trigger] after.scrollback[i],
        state.scrollback[wanted - (held - i)],
        cols,
    ) by {
        lemma_spilled_tail(recut, n, held - i);
    }
}

/// A resize moves a viewport that is scrolled back by as many rows as the scrollback then
/// drops, so that it stays on its text as long as that is held; one at the bottom stays
/// there.
pub proof fn lemma_resize_view(state: GridState, cols: int, rows: int)
    requires
        state.valid(),
        0 <= cols <= u16::MAX,
        0 <= rows <= u16::MAX,
    ensures
        ({
            let after = state.resized(cols, rows);
            let gone = if state.screen.len() > rows {
                state.screen.len() - rows
            } else {
                0
            };
            let dropped = state.scrollback.len() + gone - after.scrollback.len();
            &&& state.limit > 0 ==> after.view_offset == (if dropped < state.view_offset {
                state.view_offset - dropped
            } else {
                0
            })
            &&& state.limit == 0 ==> after.view_offset == 0
        }),
{
    let recut = state.recut(cols);
    lemma_recut(state, cols);
    let gone = state.screen.len() - rows;
    lemma_spilled(recut, gone);
    lemma_spilled_len(
        recut,
        if gone > 0 {
            gone
        } else {
            0
        },
    );
    assert(recut.spilled(gone) == recut.spilled(
        if gone > 0 {
            gone
        } else {
            0
        },
    ));
}

/// Cutting and growing back: a narrower and then an equal number of columns leaves what
/// stood left of the cut and blanks the rest.
#[verifier::spinoff_prover]
pub proof fn lemma_resize_there_and_back(state: GridState, cols: int, i: int)
    requires
        state.valid(),
        0 <= cols <= state.cols,
        0 <= i < state.screen.len(),
    ensures
        ({
            let rows = state.screen.len() as int;
            let after = state.resized(cols, rows).resized(state.cols, rows);
            &&& after.screen[i].cells.take(cols) == state.screen[i].cells.take(cols)
            &&& forall|c: int|
                cols <= c < state.cols ==> (#[trigger] after.screen[i].cells[c]).ch == ' '
                    && !after.screen[i].clusters.contains_key(c)
        }),
{
    let rows = state.screen.len() as int;
    lemma_resize_keeps_text(state, cols, rows);
    let cut = state.resized(cols, rows);
    lemma_resize_keeps_text(cut, state.cols, rows);
    let after = cut.resized(state.cols, rows);
    assert(holds_text(cut.screen[i], state.screen[i], cols));
    assert(holds_text(after.screen[i], cut.screen[i], state.cols));
    assert(after.screen[i].cells.take(cols) =~= state.screen[i].cells.take(cols));
}

/// The columns that a cluster takes when it is printed: none where it is empty or a control
/// character, two where it is wide, and one otherwise.
pub open spec fn columns_of(cluster: Seq<char>) -> int {
    if cluster.len() == 0 || width::control_code(cluster[0] as int) {
        0
    } else {
        width::cluster_width_of(cluster)
    }
}

/// The columns that the first `k` clusters take together.
pub open spec fn advance(clusters: Seq<Seq<char>>, k: int) -> int
    decreases k,
{
    if k <= 0 {
        0
    } else {
        advance(clusters, k - 1) + columns_of(clusters[k - 1])
    }
}

proof fn lemma_advance(clusters: Seq<Seq<char>>, k: int)
    requires
        0 < k <= clusters.len(),
    ensures
        advance(clusters, k) == columns_of(clusters[0]) + advance(clusters.drop_first(), k - 1),
        0 <= advance(clusters.drop_first(), k - 1),
    decreases k,
{
    reveal_with_fuel(advance, 2);
    if k > 1 {
        lemma_advance(clusters, k - 1);
        assert(clusters.drop_first()[k - 2] == clusters[k - 1]);
    }
}

/// Clusters stand from left to right.
pub proof fn lemma_advance_up(clusters: Seq<Seq<char>>, k: int)
    requires
        0 <= k <= clusters.len(),
    ensures
        0 <= advance(clusters, k),
    decreases k,
{
    if k > 0 {
        lemma_advance_up(clusters, k - 1);
    }
}

/// Every cluster is printed at the column that those before it lead to, in the ink it is
/// printed with: its first character is in the cell, its whole text beside it where it has
/// more, and the second cell of a wide one continues it. One that would straddle the last
/// column leaves a space of that ink there.
#[verifier::spinoff_prover]
pub proof fn lemma_print_lands(
    row: cells::RowState,
    cols: int,
    at: int,
    clusters: Seq<Seq<char>>,
    ink: Ink,
    k: int,
)
    requires
        row.cells.len() == cols,
        0 <= at,
        0 <= k < clusters.len(),
    ensures
        ({
            let after = printed(row, cols, at, clusters, ink).0;
            let cluster = clusters[k];
            let w = columns_of(cluster);
            let c = at + advance(clusters, k);
            &&& w > 0 && c + w <= cols ==> {
                &&& after.cells[c].ch == cluster[0]
                &&& after.cells[c].fg == ink.fg
                &&& after.cells[c].bg == ink.bg
                &&& after.cells[c].style == ink.style
                &&& after.clusters.contains_key(c) == (cluster.len() > 1)
                &&& cluster.len() > 1 ==> after.clusters[c] == cluster
            }
            &&& w == 2 && c + 2 <= cols ==> {
                &&& after.cells[c + 1].ch == '\0'
                &&& after.cells[c + 1].fg == ink.fg
                &&& after.cells[c + 1].bg == ink.bg
                &&& after.cells[c + 1].style == ink.style
                &&& !after.clusters.contains_key(c + 1)
            }
            &&& c < cols < c + w ==> {
                &&& after.cells[c].ch == ' '
                &&& after.cells[c].fg == ink.fg
                &&& after.cells[c].bg == ink.bg
                &&& after.cells[c].style == ink.style
                &&& !after.clusters.contains_key(c)
            }
        }),
    decreases clusters.len(),
{
    let cluster = clusters[0];
    let rest = clusters.drop_first();
    let taken = columns_of(cluster);
    if k > 0 {
        lemma_advance(clusters, k);
        assert(rest[k - 1] == clusters[k]);
    }
    if cluster.len() == 0 || width::control_code(cluster[0] as int) {
        if k > 0 {
            lemma_print_lands(row, cols, at, rest, ink, k - 1);
        }
    } else if at < cols && at + taken <= cols {
        let base = ink.cell(cluster[0]);
        let first = if cluster.len() > 1 {
            row.with_cluster(at, base, cluster)
        } else {
            row.with_cell(at, base)
        };
        let both = if taken == 2 {
            first.with_cell(at + 1, ink.cell(Cell::CONTINUATION))
        } else {
            first
        };
        assert(printed(row, cols, at, clusters, ink) == printed(
            both,
            cols,
            at + taken,
            rest,
            ink,
        ));
        if k > 0 {
            lemma_print_lands(both, cols, at + taken, rest, ink, k - 1);
        } else {
            lemma_print_clips(both, cols, at + taken, rest, ink);
            let after = printed(both, cols, at + taken, rest, ink).0;
            assert(after.cells[at] == both.cells[at]);
            assert(after.clusters.contains_key(at) == both.clusters.contains_key(at));
            if taken == 2 {
                assert(after.cells[at + 1] == both.cells[at + 1]);
                assert(after.clusters.contains_key(at + 1) == both.clusters.contains_key(at + 1));
            }
        }
    }
}

/// Printing ends behind the last cluster, or at the last column where that is before it,
/// and leaves every column from there on as it was.
#[verifier::spinoff_prover]
pub proof fn lemma_print_ends(
    row: cells::RowState,
    cols: int,
    at: int,
    clusters: Seq<Seq<char>>,
    ink: Ink,
)
    requires
        row.cells.len() == cols,
        0 <= at,
    ensures
        ({
            let (after, end) = printed(row, cols, at, clusters, ink);
            let total = at + advance(clusters, clusters.len() as int);
            &&& end == (if at >= cols {
                at
            } else if total < cols {
                total
            } else {
                cols
            })
            &&& forall|c: int|
                end <= c < cols ==> #[trigger] after.cells[c] == row.cells[c]
            &&& forall|c: int|
                end <= c ==> (#[trigger] after.clusters.contains_key(c)
                    == row.clusters.contains_key(c)) && (row.clusters.contains_key(c)
                    ==> after.clusters[c] == row.clusters[c])
        }),
    decreases clusters.len(),
{
    if clusters.len() > 0 {
        let cluster = clusters[0];
        let rest = clusters.drop_first();
        let taken = columns_of(cluster);
        lemma_advance(clusters, clusters.len() as int);
        if cluster.len() == 0 || width::control_code(cluster[0] as int) {
            lemma_print_ends(row, cols, at, rest, ink);
        } else if at < cols && at + taken <= cols {
            let base = ink.cell(cluster[0]);
            let first = if cluster.len() > 1 {
                row.with_cluster(at, base, cluster)
            } else {
                row.with_cell(at, base)
            };
            let both = if taken == 2 {
                first.with_cell(at + 1, ink.cell(Cell::CONTINUATION))
            } else {
                first
            };
            lemma_print_clips(both, cols, at + taken, rest, ink);
            lemma_print_ends(both, cols, at + taken, rest, ink);
            let (after, end) = printed(both, cols, at + taken, rest, ink);
            assert(printed(row, cols, at, clusters, ink) == (after, end));
            assert(at + taken <= end);
            assert forall|c: int| end <= c < cols implies #[trigger] after.cells[c]
                == row.cells[c] by {
                assert(after.cells[c] == both.cells[c]);
            }
            assert forall|c: int| end <= c implies (#[trigger] after.clusters.contains_key(c)
                == row.clusters.contains_key(c)) && (row.clusters.contains_key(c)
                ==> after.clusters[c] == row.clusters[c]) by {
                assert(after.clusters.contains_key(c) == both.clusters.contains_key(c));
            }
        } else if at < cols {
            let after = row.with_cell(at, ink.cell(' '));
            assert(printed(row, cols, at, clusters, ink) == (after, cols));
        } else {
            assert(printed(row, cols, at, clusters, ink) == (row, at));
        }
    }
}

/// Printing changes one row of the screen and nothing else of the grid.
pub proof fn lemma_print_touches_one_row(
    state: GridState,
    col: int,
    row: int,
    clusters: Seq<Seq<char>>,
    ink: Ink,
)
    requires
        state.valid(),
        0 <= col,
        0 <= row,
    ensures
        ({
            let after = state.with_print(col, row, clusters, ink);
            &&& after.valid()
            &&& after.screen.len() == state.screen.len()
            &&& after.scrollback == state.scrollback
            &&& after.view_offset == state.view_offset
            &&& after.cols == state.cols
            &&& after.limit == state.limit
            &&& forall|i: int|
                0 <= i < state.screen.len() && i != row ==> #[trigger] after.screen[i]
                    == state.screen[i]
            &&& row < state.screen.len() ==> after.dirty && after.screen[row] == printed(
                state.screen[row],
                state.cols,
                col,
                clusters,
                ink,
            ).0
            &&& row >= state.screen.len() ==> after == state && state.print_end(
                col,
                row,
                clusters,
                ink,
            ) == col
        }),
{
    if row < state.screen.len() {
        lemma_print_clips(state.screen[row], state.cols, col, clusters, ink);
    }
}

/// The rows that a viewport shows follow each other as the text does: scrolled back by one
/// more row, it shows one row more of the scrollback at its top and everything else one row
/// lower; not scrolled back, it shows the screen.
pub proof fn lemma_viewport(state: GridState, row: int)
    requires
        state.valid(),
        0 <= row < state.screen.len(),
    ensures
        ({
            let back = GridState { view_offset: state.view_offset + 1, ..state };
            &&& state.shown(row) is Some
            &&& state.view_offset == 0 ==> state.shown(row) == Some(state.screen[row])
            &&& back.shown(row + 1) == state.shown(row)
            &&& state.view_offset < state.scrollback.len() ==> back.shown(0) == Some(
                state.scrollback[state.scrollback.len() - 1 - state.view_offset],
            )
        }),
{
}

/// Clusters never stand past the last column: a blank grid has none, and every operation
/// keeps them to their columns.
#[verifier::spinoff_prover]
pub proof fn lemma_stays_tidy(
    state: GridState,
    cols: int,
    rows: int,
    n: int,
    col: int,
    row: int,
    clusters: Seq<Seq<char>>,
    ink: Ink,
)
    requires
        state.valid(),
        state.tidy(),
        0 <= cols <= u16::MAX,
        0 <= rows <= u16::MAX,
        0 <= n,
        0 <= col,
        0 <= row,
    ensures
        GridState::fresh(cols, rows, state.limit).tidy(),
        state.resized(cols, rows).tidy(),
        state.scrolled(n).tidy(),
        state.with_print(col, row, clusters, ink).tidy(),
{
    let recut = state.recut(cols);
    lemma_recut(state, cols);
    assert(recut.tidy()) by {
        assert forall|i: int| 0 <= i < recut.screen.len() implies tidy_row(
            #[trigger] recut.screen[i],
        ) by {
            assert(tidy_row(state.screen[i]));
        }
        assert forall|i: int| 0 <= i < recut.scrollback.len() implies tidy_row(
            #[trigger] recut.scrollback[i],
        ) by {
            assert(tidy_row(state.scrollback[i]));
        }
    }
    lemma_spilled(recut, recut.screen.len() - rows);
    lemma_spill_tidy(recut, recut.screen.len() - rows);
    lemma_spilled(state, state.moves(n));
    lemma_spill_tidy(state, state.moves(n));
    if row < state.screen.len() {
        assert(tidy_row(state.screen[row]));
        lemma_print_tidy(state.screen[row], state.cols, col, clusters, ink);
    }
}

proof fn lemma_spill_tidy(state: GridState, n: int)
    requires
        state.valid(),
        state.tidy(),
        n <= state.screen.len(),
    ensures
        state.spilled(n).tidy(),
    decreases n,
{
    if n > 0 {
        lemma_spilled(state, n - 1);
        lemma_spill_tidy(state, n - 1);
        let before = state.spilled(n - 1);
        assert(tidy_row(before.screen[0]));
    }
}

#[verifier::spinoff_prover]
proof fn lemma_print_tidy(
    row: cells::RowState,
    cols: int,
    at: int,
    clusters: Seq<Seq<char>>,
    ink: Ink,
)
    requires
        row.cells.len() == cols,
        tidy_row(row),
        0 <= at,
    ensures
        tidy_row(printed(row, cols, at, clusters, ink).0),
    decreases clusters.len(),
{
    if clusters.len() > 0 {
        let cluster = clusters[0];
        let rest = clusters.drop_first();
        if cluster.len() == 0 || width::control_code(cluster[0] as int) {
            lemma_print_tidy(row, cols, at, rest, ink);
        } else if at < cols {
            let taken = width::cluster_width_of(cluster);
            if at + taken <= cols {
                let base = ink.cell(cluster[0]);
                let first = if cluster.len() > 1 {
                    row.with_cluster(at, base, cluster)
                } else {
                    row.with_cell(at, base)
                };
                let both = if taken == 2 {
                    first.with_cell(at + 1, ink.cell(Cell::CONTINUATION))
                } else {
                    first
                };
                lemma_print_tidy(both, cols, at + taken, rest, ink);
            }
        }
    }
}

/// A new grid shows empty rows of its size, and holds no scrollback.
pub proof fn lemma_fresh_is_empty(cols: int, rows: int, limit: int)
    requires
        0 <= cols <= u16::MAX,
        0 <= rows <= u16::MAX,
        0 <= limit,
    ensures
        ({
            let grid = GridState::fresh(cols, rows, limit);
            &&& grid.valid()
            &&& grid.cols == cols
            &&& grid.screen.len() == rows
            &&& grid.scrollback.len() == 0
            &&& grid.limit == limit
            &&& grid.dirty
            &&& forall|i: int| 0 <= i < rows ==> empty_row(#[trigger] grid.screen[i], cols)
        }),
{
}

/// Scrolling moves every row of the text up by the same number of rows, that asked for or
/// all of the screen where that is fewer: rows of the screen stay on it or are the latest of
/// the scrollback, before those that it held already, as far back as the limit goes, and
/// empty rows come up below.
#[verifier::spinoff_prover]
pub proof fn lemma_scroll_keeps_text(state: GridState, n: int)
    requires
        state.valid(),
        0 <= n,
    ensures
        ({
            let after = state.scrolled(n);
            let had = state.screen.len() as int;
            let k = if n < had {
                n
            } else {
                had
            };
            let wanted = state.scrollback.len() + k;
            let held = after.scrollback.len() as int;
            &&& after.valid()
            &&& after.cols == state.cols
            &&& after.limit == state.limit
            &&& after.dirty
            &&& after.screen.len() == had
            &&& held == (if wanted < state.limit {
                wanted
            } else {
                state.limit
            })
            &&& forall|i: int|
                0 <= i < had - k ==> #[trigger] after.screen[i] == state.screen[i + k]
            &&& forall|i: int|
                had - k <= i < had ==> empty_row(#[trigger] after.screen[i], state.cols)
            &&& forall|i: int|
                0 <= i < held && held - i <= k ==> #[trigger] after.scrollback[i]
                    == state.screen[k - (held - i)]
            &&& forall|i: int|
                0 <= i < held && held - i > k ==> #[trigger] after.scrollback[i]
                    == state.scrollback[wanted - (held - i)]
            &&& state.view_offset == 0 ==> after.view_offset == 0
            &&& state.view_offset > 0 ==> after.view_offset == (if state.view_offset + k < held {
                state.view_offset + k
            } else {
                held
            })
        }),
{
    let k = state.moves(n);
    let after = state.scrolled(n);
    lemma_spilled(state, k);
    lemma_spilled_len(state, k);
    let spilled = state.spilled(k);
    assert(after.scrollback == spilled.scrollback);
    let held = after.scrollback.len() as int;
    let wanted = state.scrollback.len() + k;
    assert forall|i: int| 0 <= i < held && held - i <= k implies #[trigger] after.scrollback[i]
        == state.screen[k - (held - i)] by {
        lemma_spilled_tail(state, k, held - i);
    }
    assert forall|i: int| 0 <= i < held && held - i > k implies #[trigger] after.scrollback[i]
        == state.scrollback[wanted - (held - i)] by {
        lemma_spilled_tail(state, k, held - i);
    }
}

/// A terminal-style cell grid with scrollback.
///
/// Coordinates are `(col, row)` throughout, x then y, and rows are viewport rows: row 0
/// is the top of what is on screen, which is not the top of the scrollback when
/// [`TermGrid::set_view_offset`] has been used.
pub struct TermGrid {
    cols: u16,
    rows: u16,
    screen: Vec<Row>,
    /// Rows that have scrolled off the top, oldest first, at most `scrollback_limit`.
    scrollback: VecDeque<Row>,
    scrollback_limit: usize,
    view_offset: usize,
    dirty: bool,
}

spec fn row_states(rows: Seq<Row>) -> Seq<cells::RowState> {
    Seq::new(rows.len(), |i: int| rows[i]@)
}

spec fn all_wf(rows: Seq<Row>) -> bool {
    forall|i: int| 0 <= i < rows.len() ==> (#[trigger] rows[i]).wf()
}

impl View for TermGrid {
    type V = GridState;

    closed spec fn view(&self) -> GridState {
        GridState {
            cols: self.cols as int,
            screen: row_states(self.screen@),
            scrollback: row_states(self.scrollback@),
            limit: self.scrollback_limit as int,
            view_offset: self.view_offset as int,
            dirty: self.dirty,
        }
    }
}

impl TermGrid {
    /// The state is valid, and so is every row.
    pub closed spec fn wf(&self) -> bool {
        &&& self@.valid()
        &&& self.rows == self.screen@.len()
        &&& all_wf(self.screen@)
        &&& all_wf(self.scrollback@)
    }

    /// What every operation keeps: the state of a well-formed grid is valid.
    pub proof fn lemma_valid(&self)
        requires
            self.wf(),
        ensures
            self@.valid(),
    {
    }

    /// A blank grid whose scrollback keeps up to `scrollback_limit` rows.
    pub fn new(cols: u16, rows: u16, scrollback_limit: usize) -> (grid: TermGrid)
        ensures
            grid.wf(),
            grid@ == GridState::fresh(cols as int, rows as int, scrollback_limit as int),
    {
        let mut screen: Vec<Row> = Vec::new();
        let mut i: u16 = 0;
        while i < rows
            invariant
                i <= rows,
                screen@.len() == i,
                all_wf(screen@),
                forall|k: int|
                    0 <= k < i ==> (#[trigger] screen@[k])@ == cells::RowState::blank(cols as int),
            decreases rows - i,
        {
            screen.push(Row::blank(cols));
            i = i + 1;
        }
        let grid = TermGrid {
            cols,
            rows,
            screen,
            scrollback: VecDeque::new(),
            scrollback_limit,
            view_offset: 0,
            dirty: true,
        };
        let ghost want = GridState::fresh(cols as int, rows as int, scrollback_limit as int);
        assert(grid@.screen =~= want.screen);
        assert(grid@.scrollback =~= want.scrollback);
        grid
    }

    /// The number of columns.
    pub fn cols(&self) -> (cols: u16)
        ensures
            cols == self@.cols,
    {
        self.cols
    }

    /// The number of rows on screen.
    pub fn rows(&self) -> (rows: u16)
        requires
            self.wf(),
        ensures
            rows == self@.screen.len(),
    {
        self.rows
    }

    /// Rows currently held in scrollback.
    pub fn scrollback_len(&self) -> (len: usize)
        ensures
            len == self@.scrollback.len(),
    {
        self.scrollback.len()
    }

    /// How many lines back the viewport is showing.
    pub fn view_offset(&self) -> (offset: usize)
        ensures
            offset == self@.view_offset,
    {
        self.view_offset
    }

    /// Scrolls the viewport back through the scrollback, no farther than what it still
    /// holds. Returns the offset actually taken.
    pub fn set_view_offset(&mut self, lines_back: usize) -> (offset: usize)
        requires
            old(self).wf(),
        ensures
            final(self).wf(),
            offset == (if lines_back < old(self)@.scrollback.len() {
                lines_back as int
            } else {
                old(self)@.scrollback.len() as int
            }),
            final(self)@ == (GridState {
                view_offset: offset as int,
                dirty: old(self)@.dirty || offset != old(self)@.view_offset,
                ..old(self)@
            }),
    {
        let offset: usize = if lines_back < self.scrollback.len() {
            lines_back
        } else {
            self.scrollback.len()
        };
        if offset != self.view_offset {
            self.view_offset = offset;
            self.dirty = true;
        }
        offset
    }

    /// True if anything changed since the last [`TermGrid::take_dirty`].
    pub fn dirty(&self) -> (dirty: bool)
        ensures
            dirty == self@.dirty,
    {
        self.dirty
    }

    /// Reads and clears the dirty flag.
    pub fn take_dirty(&mut self) -> (dirty: bool)
        requires
            old(self).wf(),
        ensures
            final(self).wf(),
            dirty == old(self)@.dirty,
            final(self)@ == (GridState { dirty: false, ..old(self)@ }),
    {
        let dirty: bool = self.dirty;
        self.dirty = false;
        dirty
    }

    /// Puts a row at the end of the scrollback.
    fn push_scrollback(&mut self, row: Row)
        requires
            old(self).wf(),
            row.wf(),
            row@.cells.len() == old(self)@.cols,
        ensures
            final(self).wf(),
            final(self)@ == old(self)@.banked(row@),
            final(self).screen == old(self).screen,
            final(self).rows == old(self).rows,
    {
        if self.scrollback_limit == 0 {
            return;
        }
        let ghost before = self.scrollback@;
        if self.scrollback.len() == self.scrollback_limit {
            let oldest = self.scrollback.pop_front();
            // The viewport follows the text that is left.
            self.view_offset = self.view_offset.saturating_sub(1);
        }
        self.scrollback.push_back(row);
        assert(row_states(self.scrollback@) =~= old(self)@.banked(row@).scrollback);
        assert(self@ == old(self)@.banked(row@));
        assert(all_wf(self.scrollback@)) by {
            assert forall|i: int| 0 <= i < self.scrollback@.len() implies (
            #[trigger] self.scrollback@[i]).wf() by {
                let skip = before.len() + 1 - self.scrollback@.len();
                if i < self.scrollback@.len() - 1 {
                    assert(self.scrollback@[i] == before[i + skip]);
                }
            }
        }
        proof {
            lemma_banked(old(self)@, row@);
        }
    }

    /// Moves the top row of the screen to the scrollback.
    fn spill_row(&mut self)
        requires
            old(self).wf(),
            old(self)@.screen.len() > 0,
        ensures
            final(self).wf(),
            final(self)@ == (GridState {
                screen: old(self)@.screen.drop_first(),
                ..old(self)@.banked(old(self)@.screen[0])
            }),
    {
        let ghost before = self.screen@;
        let row = self.screen.remove(0);
        assert(self.screen@ =~= before.drop_first());
        self.rows = self.rows - 1;
        assert(row_states(self.screen@) =~= old(self)@.screen.drop_first());
        assert(row@ == old(self)@.screen[0]);
        assert(all_wf(self.screen@));
        self.push_scrollback(row);
        assert(self@ == (GridState {
            screen: old(self)@.screen.drop_first(),
            ..old(self)@.banked(old(self)@.screen[0])
        }));
    }

    /// Puts a blank row at the bottom of the screen.
    fn push_blank(&mut self)
        requires
            old(self).wf(),
            old(self)@.screen.len() < u16::MAX,
        ensures
            final(self).wf(),
            final(self)@ == (GridState {
                screen: old(self)@.screen.push(cells::RowState::blank(old(self)@.cols)),
                ..old(self)@
            }),
    {
        self.screen.push(Row::blank(self.cols));
        self.rows = self.rows + 1;
        assert(row_states(self.screen@) =~= old(self)@.screen.push(
            cells::RowState::blank(old(self)@.cols),
        ));
    }

    /// Puts a blank row at the top of the screen.
    fn top_blank(&mut self)
        requires
            old(self).wf(),
            old(self)@.screen.len() < u16::MAX,
        ensures
            final(self).wf(),
            final(self)@ == (GridState {
                screen: old(self)@.screen.insert(0, cells::RowState::blank(old(self)@.cols)),
                ..old(self)@
            }),
    {
        let ghost screen = self.screen@;
        self.screen.insert(0, Row::blank(self.cols));
        self.rows = self.rows + 1;
        assert(forall|k: int|
            0 < k < self.screen@.len() ==> #[trigger] self.screen@[k] == screen[k - 1]);
        assert(row_states(self.screen@) =~= old(self)@.screen.insert(
            0,
            cells::RowState::blank(old(self)@.cols),
        ));
    }

    /// Cuts every row off or fills it up to `cols` columns.
    fn recut(&mut self, cols: u16)
        requires
            old(self).wf(),
        ensures
            final(self).wf(),
            final(self)@ == old(self)@.recut(cols as int),
    {
        if cols == self.cols {
            return;
        }
        let ghost screen = self.screen@;
        let ghost scrollback = self.scrollback@;
        let mut i: usize = 0;
        while i < self.screen.len()
            invariant
                i <= self.screen@.len(),
                self.screen@.len() == screen.len(),
                all_wf(self.screen@),
                forall|k: int|
                    0 <= k < i ==> (#[trigger] self.screen@[k])@ == screen[k]@.resized(cols as int),
                forall|k: int| i <= k < screen.len() ==> #[trigger] self.screen@[k] == screen[k],
                self.scrollback@ == scrollback,
                self.scrollback_limit == old(self).scrollback_limit,
                self.view_offset == old(self).view_offset,
                self.dirty == old(self).dirty,
                self.rows == old(self).rows,
            decreases self.screen@.len() - i,
        {
            let row = &mut self.screen[i];
            row.resize(cols);
            i = i + 1;
        }
        let total: usize = self.scrollback.len();
        let mut i: usize = 0;
        while i < total
            invariant
                i <= total,
                total == scrollback.len(),
                self.scrollback@.len() == total,
                all_wf(self.scrollback@),
                forall|k: int|
                    0 <= k < total - i ==> #[trigger] self.scrollback@[k] == scrollback[k + i],
                forall|k: int|
                    total - i <= k < total ==> (#[trigger] self.scrollback@[k])@
                        == scrollback[k + i - total]@.resized(cols as int),
                all_wf(self.screen@),
                self.screen@.len() == screen.len(),
                forall|k: int|
                    0 <= k < screen.len() ==> (#[trigger] self.screen@[k])@ == screen[k]@.resized(
                        cols as int,
                    ),
                self.scrollback_limit == old(self).scrollback_limit,
                self.view_offset == old(self).view_offset,
                self.dirty == old(self).dirty,
                self.rows == old(self).rows,
            decreases total - i,
        {
            let ghost before = self.scrollback@;
            if let Some(mut row) = self.scrollback.pop_front() {
                row.resize(cols);
                self.scrollback.push_back(row);
                proof {
                    assert forall|k: int| 0 <= k < total implies (#[trigger] self.scrollback@[k]).wf()
                        && (k < total - i - 1 ==> self.scrollback@[k] == scrollback[k + i + 1]) && (
                    total - i - 1 <= k ==> self.scrollback@[k]@ == scrollback[k + i + 1
                        - total]@.resized(cols as int)) by {
                        if k < total - 1 {
                            assert(self.scrollback@[k] == before[k + 1]);
                        }
                    }
                }
            }
            i = i + 1;
        }
        self.cols = cols;
        assert(self@.screen =~= old(self)@.recut(cols as int).screen);
        assert(self@.scrollback =~= old(self)@.recut(cols as int).scrollback);
    }

    /// Resizes the grid, keeping content anchored to the bottom left the way a terminal
    /// does: rows pushed off the top go to scrollback, and new rows (at the top) or columns
    /// (at the right) come up blank.
    pub fn resize(&mut self, cols: u16, rows: u16)
        requires
            old(self).wf(),
        ensures
            final(self).wf(),
            final(self)@ == old(self)@.resized(cols as int, rows as int),
    {
        if cols == self.cols && rows == self.rows {
            return;
        }
        self.recut(cols);
        let ghost recut = self@;
        let ghost mut n: int = 0;
        while self.rows > rows
            invariant
                self.wf(),
                recut.valid(),
                0 <= n <= recut.screen.len(),
                self.rows == recut.screen.len() - n,
                recut.screen.len() > rows ==> self.rows >= rows,
                recut.screen.len() <= rows ==> n == 0,
                self@ == recut.spilled(n),
            decreases self.rows,
        {
            self.spill_row();
            proof {
                n = n + 1;
            }
        }
        let ghost cut = self@;
        proof {
            lemma_spilled(recut, n);
            if recut.screen.len() - rows > 0 {
                assert(n == recut.screen.len() - rows);
            }
            assert(cut == recut.spilled(recut.screen.len() - rows));
            assert(cut.screen =~= cut.topped(0).screen);
        }
        while self.rows < rows
            invariant
                self.wf(),
                cut.valid(),
                cut.screen.len() <= rows,
                cut.screen.len() <= self.rows <= rows,
                self@ == cut.topped(self.rows as int),
            decreases rows - self.rows,
        {
            self.top_blank();
            assert(self@.screen =~= cut.topped(self.rows as int).screen);
        }
        assert(self@ == cut.topped(rows as int));
        if self.scrollback.len() < self.view_offset {
            self.view_offset = self.scrollback.len();
        }
        self.dirty = true;
    }

    /// Blanks every cell on screen. Scrollback is untouched.
    pub fn clear(&mut self)
        requires
            old(self).wf(),
        ensures
            final(self).wf(),
            final(self)@ == (GridState {
                screen: Seq::new(
                    old(self)@.screen.len(),
                    |i: int| cells::RowState::blank(old(self)@.cols),
                ),
                dirty: true,
                ..old(self)@
            }),
    {
        let mut i: usize = 0;
        while i < self.screen.len()
            invariant
                i <= self.screen@.len(),
                self.screen@.len() == old(self).screen@.len(),
                all_wf(self.screen@),
                forall|k: int|
                    0 <= k < i ==> (#[trigger] self.screen@[k])@ == cells::RowState::blank(
                        self.cols as int,
                    ),
                self.cols == old(self).cols,
                self.rows == old(self).rows,
                self.scrollback == old(self).scrollback,
                self.scrollback_limit == old(self).scrollback_limit,
                self.view_offset == old(self).view_offset,
            decreases self.screen@.len() - i,
        {
            let cols: u16 = self.cols;
            let row = &mut self.screen[i];
            row.reset(cols);
            i = i + 1;
        }
        self.dirty = true;
        assert(self@.screen =~= Seq::new(
            old(self)@.screen.len(),
            |i: int| cells::RowState::blank(old(self)@.cols),
        ));
    }

    /// A cell of the screen (scrollback is not addressable this way).
    pub fn cell(&self, col: u16, row: u16) -> (cell: Option<Cell>)
        requires
            self.wf(),
        ensures
            cell is Some <==> row < self@.screen.len() && col < self@.cols,
            cell matches Some(c) ==> c == self@.screen[row as int].cells[col as int],
    {
        if row >= self.rows || col >= self.cols {
            return None;
        }
        assert(self@.screen[row as int].cells.len() == self@.cols);
        Some(self.screen[row as usize].cell(col as usize))
    }

    /// The full grapheme cluster in a screen cell, when it has more in it than the one
    /// `char` that a [`Cell`] carries.
    pub fn cluster(&self, col: u16, row: u16) -> (text: Option<&str>)
        requires
            self.wf(),
        ensures
            text is Some <==> row < self@.screen.len()
                && self@.screen[row as int].clusters.contains_key(col as int),
            text matches Some(t) ==> t@ == self@.screen[row as int].clusters[col as int],
    {
        if row >= self.rows {
            return None;
        }
        self.screen[row as usize].cluster(col)
    }

    /// Replaces a cell of the screen; nothing where there is no such cell.
    pub fn set_cell(&mut self, col: u16, row: u16, cell: Cell)
        requires
            old(self).wf(),
        ensures
            final(self).wf(),
            col >= old(self)@.cols || row >= old(self)@.screen.len() ==> final(self)@ == old(self)@,
            col < old(self)@.cols && row < old(self)@.screen.len() ==> final(self)@ == (GridState {
                screen: old(self)@.screen.update(
                    row as int,
                    old(self)@.screen[row as int].with_cell(col as int, cell),
                ),
                dirty: true,
                ..old(self)@
            }),
    {
        if col >= self.cols || row >= self.rows {
            return;
        }
        assert(self@.screen[row as int].cells.len() == self@.cols);
        let line = &mut self.screen[row as usize];
        line.set(col, cell);
        self.dirty = true;
        assert(self@.screen =~= old(self)@.screen.update(
            row as int,
            old(self)@.screen[row as int].with_cell(col as int, cell),
        ));
    }

    /// Writes grapheme clusters starting at `(col, row)`, one cell per cluster (two for
    /// a wide one). Returns the column after the last cell written.
    pub fn print_clusters(
        &mut self,
        col: u16,
        row: u16,
        clusters: &Vec<String>,
        fg: Color,
        bg: Option<Color>,
        style: CellStyle,
    ) -> (end: u16)
        requires
            old(self).wf(),
        ensures
            final(self).wf(),
            final(self)@ == old(self)@.with_print(
                col as int,
                row as int,
                graphemes::texts(clusters@),
                (Ink { fg, bg, style }),
            ),
            end == old(self)@.print_end(
                col as int,
                row as int,
                graphemes::texts(clusters@),
                (Ink { fg, bg, style }),
            ),
    {
        if row >= self.rows {
            return col;
        }
        let cols: u16 = self.cols;
        assert(self@.screen[row as int].cells.len() == self@.cols);
        let line = &mut self.screen[row as usize];
        let end: u16 = print_row(line, cols, col, clusters, fg, bg, style);
        self.dirty = true;
        assert(self@.screen =~= old(self)@.with_print(
            col as int,
            row as int,
            graphemes::texts(clusters@),
            Ink { fg, bg, style },
        ).screen);
        end
    }

    /// [`TermGrid::print`] with style bits.
    pub fn print_styled(
        &mut self,
        col: u16,
        row: u16,
        text: &str,
        fg: Color,
        bg: Option<Color>,
        style: CellStyle,
    ) -> (end: u16)
        requires
            old(self).wf(),
        ensures
            final(self).wf(),
            final(self)@ == old(self)@.with_print(
                col as int,
                row as int,
                graphemes::grapheme_clusters(text@),
                (Ink { fg, bg, style }),
            ),
            end == old(self)@.print_end(
                col as int,
                row as int,
                graphemes::grapheme_clusters(text@),
                (Ink { fg, bg, style }),
            ),
    {
        let clusters: Vec<String> = graphemes::graphemes(text);
        self.print_clusters(col, row, &clusters, fg, bg, style)
    }

    /// Writes `text` starting at `(col, row)`, one cell per grapheme cluster (two for a
    /// wide one). Returns the column after the last cell written.
    ///
    /// Nothing wraps: a terminal's line wrapping is the emulator's decision, so text
    /// that runs past the last column is clipped. A wide character that would straddle
    /// the right edge is dropped and its would-be cell is left blank, which is what a
    /// terminal puts there. Control characters are skipped.
    pub fn print(&mut self, col: u16, row: u16, text: &str, fg: Color, bg: Option<Color>) -> (end:
        u16)
        requires
            old(self).wf(),
        ensures
            final(self).wf(),
            final(self)@ == old(self)@.with_print(
                col as int,
                row as int,
                graphemes::grapheme_clusters(text@),
                (Ink { fg, bg, style: CellStyle(CellStyle::NONE) }),
            ),
            end == old(self)@.print_end(
                col as int,
                row as int,
                graphemes::grapheme_clusters(text@),
                (Ink { fg, bg, style: CellStyle(CellStyle::NONE) }),
            ),
    {
        self.print_styled(col, row, text, fg, bg, CellStyle(CellStyle::NONE))
    }

    /// Scrolls `n` rows off the top into scrollback, blanking the rows that appear at
    /// the bottom. A viewport that is already scrolled back stays where it is relative
    /// to the text, until the scrollback drops that text.
    pub fn scroll_up(&mut self, n: u16)
        requires
            old(self).wf(),
        ensures
            final(self).wf(),
            final(self)@ == old(self)@.scrolled(n as int),
    {
        let n: u16 = if n < self.rows {
            n
        } else {
            self.rows
        };
        let pinned: usize = self.view_offset;
        let rows: u16 = self.rows;
        let ghost start = self@;
        let mut i: u16 = 0;
        while i < n
            invariant
                self.wf(),
                i <= n <= rows == start.screen.len(),
                self.rows == rows - i,
                start.valid(),
                self@ == start.spilled(i as int),
            decreases n - i,
        {
            self.spill_row();
            i = i + 1;
        }
        let ghost spilled = self@;
        assert(spilled.screen =~= spilled.filled(0).screen);
        while self.rows < rows
            invariant
                self.wf(),
                spilled.valid(),
                spilled.screen.len() <= self.rows <= rows,
                self@ == spilled.filled(self.rows as int),
            decreases rows - self.rows,
        {
            self.push_blank();
            assert(self@.screen =~= spilled.filled(self.rows as int).screen);
        }
        proof {
            lemma_spilled(start, n as int);
        }
        let held: usize = self.scrollback.len();
        if pinned > 0 {
            let moved: usize = pinned.saturating_add(n as usize);
            self.view_offset = if moved < held {
                moved
            } else {
                held
            };
        }
        self.dirty = true;
    }

    /// Appends a line at the bottom, scrolling first.
    pub fn push_line(&mut self, text: &str, fg: Color, bg: Option<Color>)
        requires
            old(self).wf(),
        ensures
            final(self).wf(),
            final(self)@ == (if old(self)@.screen.len() == 0 {
                old(self)@.scrolled(1)
            } else {
                old(self)@.scrolled(1).with_print(
                    0,
                    old(self)@.screen.len() - 1,
                    graphemes::grapheme_clusters(text@),
                    (Ink { fg, bg, style: CellStyle(CellStyle::NONE) }),
                )
            }),
    {
        self.scroll_up(1);
        if self.rows > 0 {
            let end: u16 = self.print(0, self.rows - 1, text, fg, bg);
        }
        proof {
            lemma_scrolled_len(old(self)@, 1);
        }
    }

    /// The row shown at viewport row `row`: scrollback while the viewport is scrolled
    /// back past it, the screen otherwise.
    pub(crate) fn visible_row(&self, row: u16) -> (shown: Option<&Row>)
        requires
            self.wf(),
        ensures
            shown is Some <==> self@.shown(row as int) is Some,
            shown matches Some(r) ==> r.wf() && self@.shown(row as int) == Some(r@) && r@.cells.len()
                == self@.cols,
    {
        let row: usize = row as usize;
        if row < self.view_offset {
            let back: usize = self.view_offset - row;
            let at: usize = self.scrollback.len() - back;
            assert(self@.scrollback[at as int] == self.scrollback@[at as int]@);
            Some(&self.scrollback[at])
        } else if row - self.view_offset < self.screen.len() {
            assert(self@.screen[row - self.view_offset] == self.screen@[row
                - self.view_offset]@);
            Some(&self.screen[row - self.view_offset])
        } else {
            None
        }
    }

    /// The cell shown at a viewport position, reading through the scrollback offset.
    /// `(0, 0)` is the top left of what is drawn.
    pub fn view_cell(&self, col: u16, row: u16) -> (cell: Option<Cell>)
        requires
            self.wf(),
        ensures
            cell is Some <==> self@.shown(row as int) is Some && col < self@.cols,
            cell matches Some(c) ==> self@.shown(row as int) matches Some(r) && c
                == r.cells[col as int],
    {
        match self.visible_row(row) {
            Some(line) => {
                if col < self.cols {
                    Some(line.cell(col as usize))
                } else {
                    None
                }
            },
            None => None,
        }
    }
}

proof fn lemma_scrolled_len(state: GridState, n: int)
    requires
        state.valid(),
        0 <= n,
    ensures
        state.scrolled(n).screen.len() == state.screen.len(),
{
    lemma_spilled(state, state.moves(n));
}

/// Writes grapheme clusters into a row.
fn print_row(
    line: &mut Row,
    cols: u16,
    col: u16,
    clusters: &Vec<String>,
    fg: Color,
    bg: Option<Color>,
    style: CellStyle,
) -> (end: u16)
    requires
        old(line).wf(),
        old(line)@.cells.len() == cols,
    ensures
        final(line).wf(),
        final(line)@.cells.len() == cols,
        (final(line)@, end as int) == printed(
            old(line)@,
            cols as int,
            col as int,
            graphemes::texts(clusters@),
            Ink { fg, bg, style },
        ),
{
    let ghost all = graphemes::texts(clusters@);
    let ghost ink = Ink { fg, bg, style };
    let mut at: u16 = col;
    let mut i: usize = 0;
    assert(all.skip(0) =~= all);
    while i < clusters.len()
        invariant
            line.wf(),
            line@.cells.len() == cols,
            i <= clusters@.len(),
            all == graphemes::texts(clusters@),
            ink == (Ink { fg, bg, style }),
            printed(line@, cols as int, at as int, all.skip(i as int), ink) == printed(
                old(line)@,
                cols as int,
                col as int,
                all,
                ink,
            ),
        decreases clusters@.len() - i,
    {
        let cluster: &str = clusters[i].as_str();
        proof {
            assert(all.skip(i as int)[0] == cluster@);
            assert(all.skip(i as int).drop_first() =~= all.skip(i + 1));
        }
        i = i + 1;
        let chars: usize = cluster.unicode_len();
        if chars == 0 {
            continue;
        }
        let ch: char = cluster.get_char(0);
        if width::is_control(ch) {
            continue;
        }
        if at >= cols {
            return at;
        }
        let taken: u16 = width::cluster_width(cluster);
        let cell = Cell { ch, fg, bg, style };
        if at as u32 + taken as u32 > cols as u32 {
            // A wide character with one cell left: the cell stays blank, and nothing
            // after it is printed either.
            line.set(at, Cell { ch: ' ', fg, bg, style });
            return cols;
        }
        if chars > 1 {
            line.set_with_cluster(at, cell, cluster);
        } else {
            line.set(at, cell);
        }
        if taken == 2 {
            line.set(at + 1, Cell { ch: Cell::CONTINUATION, fg, bg, style });
        }
        at = at + taken;
    }
    assert(all.skip(i as int).len() == 0);
    at
}

} // verus!
