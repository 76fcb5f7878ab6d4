//! Translating a grid's viewport into what is drawn: merged background runs and
//! procedural box-drawing rectangles, glyph cells, and underline and strikeout runs.

use vstd::prelude::*;
use crate::boxes;
use crate::boxes::{push_procedural, PixelRect, SceneRect};
use crate::cells;
use crate::cells::{Cell, CellStyle, Row};
use crate::color::Color;
use crate::grid;
use crate::grid::TermGrid;
use crate::width;

verus! {

/// What a decoration looks like.
#[derive(Clone, Copy, Debug, PartialEq, Eq, Structural)]
pub enum DecorationKind {
    Underline,
    Strikethrough,
    Squiggle,
    /// A rounded background; the radius in pixels, as the bit pattern of a
    /// single-precision number.
    Chip { radius_px: u32 },
}

/// A maximal run of cells of one color, from `start` up to `end`.
#[derive(Clone, Copy, Debug)]
pub struct ColorRun {
    pub start: usize,
    pub end: usize,
    pub color: Color,
}

/// The first index at or after `i` whose cell does not continue a run of `color`.
pub open spec fn run_end(colors: Seq<Option<Color>>, color: Color, i: int) -> int
    decreases colors.len() - i,
{
    if i < colors.len() && (colors[i] matches Some(next) && color.same(next)) {
        run_end(colors, color, i + 1)
    } else {
        i
    }
}

/// The runs of one color each among the cells from `from` on, left to right. Cells
/// without a color are in none.
pub open spec fn runs_from(colors: Seq<Option<Color>>, from: int) -> Seq<ColorRun>
    decreases colors.len() - from,
    via runs_from_decreases
{
    if from >= colors.len() {
        Seq::empty()
    } else {
        match colors[from] {
            None => runs_from(colors, from + 1),
            Some(color) => {
                let end = run_end(colors, color, from + 1);
                seq![ColorRun { start: from as usize, end: end as usize, color }] + runs_from(
                    colors,
                    end,
                )
            },
        }
    }
}

#[via_fn]
proof fn runs_from_decreases(colors: Seq<Option<Color>>, from: int) {
    if from < colors.len() {
        if let Some(color) = colors[from] {
            lemma_run_end(colors, color, from + 1);
        }
    }
}

proof fn lemma_run_end(colors: Seq<Option<Color>>, color: Color, i: int)
    requires
        i <= colors.len(),
    ensures
        i <= run_end(colors, color, i) <= colors.len(),
        forall|k: int|
            i <= k < run_end(colors, color, i) ==> (#[trigger] colors[k] matches Some(c)
                && color.same(c)),
        run_end(colors, color, i) < colors.len() ==> !(colors[run_end(
            colors,
            color,
            i,
        )] matches Some(c) && color.same(c)),
    decreases colors.len() - i,
{
    if i < colors.len() && (colors[i] matches Some(next) && color.same(next)) {
        lemma_run_end(colors, color, i + 1);
    }
}

/// A run covers a cell.
pub open spec fn covers(run: ColorRun, i: int) -> bool {
    run.start <= i < run.end
}

/// The run starts at a cell of its color, each of its further cells repeats that color,
/// and the cell after it does not.
pub open spec fn is_maximal_run(colors: Seq<Option<Color>>, run: ColorRun) -> bool {
    &&& run.start < run.end <= colors.len()
    &&& colors[run.start as int] == Some(run.color)
    &&& forall|i: int|
        run.start < i < run.end ==> (#[trigger] colors[i] matches Some(c) && run.color.same(c))
    &&& run.end < colors.len() ==> !(colors[run.end as int] matches Some(c) && run.color.same(c))
}

proof fn lemma_runs_maximal(colors: Seq<Option<Color>>, from: int)
    requires
        0 <= from <= colors.len() <= usize::MAX,
    ensures
        forall|k: int|
            0 <= k < runs_from(colors, from).len() ==> is_maximal_run(
                colors,
                #[trigger] runs_from(colors, from)[k],
            ) && from <= runs_from(colors, from)[k].start,
    decreases colors.len() - from,
{
    if from < colors.len() {
        match colors[from] {
            None => {
                lemma_runs_maximal(colors, from + 1);
                assert(runs_from(colors, from) == runs_from(colors, from + 1));
            },
            Some(color) => {
                lemma_run_end(colors, color, from + 1);
                let end = run_end(colors, color, from + 1);
                lemma_runs_maximal(colors, end);
                let first = ColorRun { start: from as usize, end: end as usize, color };
                let rest = runs_from(colors, end);
                let runs = runs_from(colors, from);
                assert(runs == seq![first] + rest);
                assert(is_maximal_run(colors, first));
                assert forall|k: int| 0 <= k < runs.len() implies is_maximal_run(
                    colors,
                    #[trigger] runs[k],
                ) && from <= runs[k].start by {
                    if k > 0 {
                        assert(runs[k] == rest[k - 1]);
                    }
                }
            },
        }
    }
}

proof fn lemma_runs_ascend(colors: Seq<Option<Color>>, from: int)
    requires
        0 <= from <= colors.len() <= usize::MAX,
    ensures
        forall|k: int, m: int|
            0 <= k < m < runs_from(colors, from).len() ==> (#[trigger] runs_from(
                colors,
                from,
            )[k]).end <= (#[trigger] runs_from(colors, from)[m]).start,
    decreases colors.len() - from,
{
    if from < colors.len() {
        match colors[from] {
            None => {
                lemma_runs_ascend(colors, from + 1);
                assert(runs_from(colors, from) == runs_from(colors, from + 1));
            },
            Some(color) => {
                lemma_run_end(colors, color, from + 1);
                let end = run_end(colors, color, from + 1);
                lemma_runs_ascend(colors, end);
                lemma_runs_maximal(colors, end);
                let first = ColorRun { start: from as usize, end: end as usize, color };
                let rest = runs_from(colors, end);
                let runs = runs_from(colors, from);
                assert(runs == seq![first] + rest);
                assert forall|k: int, m: int| 0 <= k < m < runs.len() implies (
                #[trigger] runs[k]).end <= (#[trigger] runs[m]).start by {
                    assert(runs[m] == rest[m - 1]);
                    if k > 0 {
                        assert(runs[k] == rest[k - 1]);
                    }
                }
            },
        }
    }
}

proof fn lemma_runs_cover(colors: Seq<Option<Color>>, from: int, i: int)
    requires
        0 <= from <= i < colors.len() <= usize::MAX,
        colors[i] is Some,
    ensures
        exists|k: int|
            0 <= k < runs_from(colors, from).len() && covers(
                #[trigger] runs_from(colors, from)[k],
                i,
            ),
    decreases colors.len() - from,
{
    match colors[from] {
        None => {
            lemma_runs_cover(colors, from + 1, i);
            assert(runs_from(colors, from) == runs_from(colors, from + 1));
        },
        Some(color) => {
            lemma_run_end(colors, color, from + 1);
            let end = run_end(colors, color, from + 1);
            let first = ColorRun { start: from as usize, end: end as usize, color };
            let rest = runs_from(colors, end);
            let runs = runs_from(colors, from);
            assert(runs == seq![first] + rest);
            if i < end {
                assert(covers(runs[0], i));
            } else {
                lemma_runs_cover(colors, end, i);
                let k = choose|k: int| 0 <= k < rest.len() && covers(#[trigger] rest[k], i);
                assert(runs[k + 1] == rest[k]);
                assert(covers(runs[k + 1], i));
            }
        },
    }
}

/// Runs cover every colored cell once and no other: each is maximal, they ascend without
/// overlap, and every colored cell is in one.
pub proof fn lemma_runs_partition(colors: Seq<Option<Color>>)
    requires
        colors.len() <= usize::MAX,
    ensures
        ({
            let runs = runs_from(colors, 0);
            &&& forall|k: int| 0 <= k < runs.len() ==> is_maximal_run(colors, #[trigger] runs[k])
            &&& forall|k: int, m: int|
                0 <= k < m < runs.len() ==> (#[trigger] runs[k]).end <= (#[trigger] runs[m]).start
            &&& forall|i: int|
                0 <= i < colors.len() && #[trigger] colors[i] is Some ==> exists|k: int|
                    0 <= k < runs.len() && covers(#[trigger] runs[k], i)
        }),
{
    lemma_runs_maximal(colors, 0);
    lemma_runs_ascend(colors, 0);
    assert forall|i: int| 0 <= i < colors.len() && #[trigger] colors[i] is Some implies exists|
        k: int,
    |
        0 <= k < runs_from(colors, 0).len() && covers(#[trigger] runs_from(colors, 0)[k], i) by {
        lemma_runs_cover(colors, 0, i);
    }
}

/// Merges colored cells into runs.
pub fn color_runs(colors: &Vec<Option<Color>>) -> (runs: Vec<ColorRun>)
    ensures
        runs@ == runs_from(colors@, 0),
{
    let mut runs: Vec<ColorRun> = Vec::new();
    let mut at: usize = 0;
    while at < colors.len()
        invariant
            at <= colors@.len(),
            runs@ + runs_from(colors@, at as int) == runs_from(colors@, 0),
        decreases colors@.len() - at,
    {
        match colors[at] {
            None => {
                at = at + 1;
            },
            Some(color) => {
                let start: usize = at;
                let ghost before = runs@;
                at = at + 1;
                let mut more: bool = true;
                while more && at < colors.len()
                    invariant
                        start < at <= colors@.len(),
                        run_end(colors@, color, start + 1) == (if more {
                            run_end(colors@, color, at as int)
                        } else {
                            at as int
                        }),
                    decreases colors@.len() - at, more as int,
                {
                    match colors[at] {
                        Some(next) => {
                            if color == next {
                                at = at + 1;
                            } else {
                                more = false;
                            }
                        },
                        None => {
                            more = false;
                        },
                    }
                }
                let run = ColorRun { start, end: at, color };
                runs.push(run);
                proof {
                    assert(runs_from(colors@, start as int) == seq![run] + runs_from(
                        colors@,
                        at as int,
                    ));
                    assert(runs@ + runs_from(colors@, at as int) =~= before + runs_from(
                        colors@,
                        start as int,
                    ));
                }
            },
        }
    }
    assert(runs@ =~= runs@ + runs_from(colors@, at as int));
    runs
}

/// Where a grid is drawn: the size of a cell and the top left of cell (0, 0), in whole
/// pixels.
#[derive(Clone, Copy, Debug, PartialEq, Eq, Structural)]
pub struct GridLayout {
    pub cell_w: u32,
    pub cell_h: u32,
    pub left: i32,
    pub top: i32,
}

impl GridLayout {
    /// A cell has an area.
    pub open spec fn valid(self) -> bool {
        self.cell_w > 0 && self.cell_h > 0
    }

    /// Left edge of a column.
    pub open spec fn x_of(self, col: int) -> int {
        self.left + col * self.cell_w
    }

    /// Top edge of a row.
    pub open spec fn y_of(self, row: int) -> int {
        self.top + row * self.cell_h
    }

    /// The cells of a row from column `start` up to column `end`.
    pub open spec fn strip(self, row: int, start: int, end: int) -> PixelRect {
        PixelRect {
            x: self.x_of(start) as i64,
            y: self.y_of(row) as i64,
            w: ((end - start) * self.cell_w) as i64,
            h: self.cell_h as i64,
        }
    }

    fn strip_px(self, row: u16, start: usize, end: usize) -> (rect: PixelRect)
        requires
            start <= end <= u16::MAX,
        ensures
            rect == self.strip(row as int, start as int, end as int),
            self.valid() && start < end <= start + 2 ==> rect.is_cell(),
    {
        proof {
            assert(0 <= start * self.cell_w <= 0xFFFF * 0xFFFF_FFFF) by (nonlinear_arith)
                requires
                    0 <= start <= 0xFFFF,
                    0 <= self.cell_w <= 0xFFFF_FFFF,
            ;
            assert(0 <= row * self.cell_h <= 0xFFFF * 0xFFFF_FFFF) by (nonlinear_arith)
                requires
                    0 <= row <= 0xFFFF,
                    0 <= self.cell_h <= 0xFFFF_FFFF,
            ;
            assert(0 <= (end - start) * self.cell_w <= 0xFFFF * 0xFFFF_FFFF) by (nonlinear_arith)
                requires
                    0 <= end - start <= 0xFFFF,
                    0 <= self.cell_w <= 0xFFFF_FFFF,
            ;
            if self.valid() && start < end <= start + 2 {
                assert(0 < (end - start) * self.cell_w <= 2 * 0xFFFF_FFFF) by (nonlinear_arith)
                    requires
                        0 < end - start <= 2,
                        0 < self.cell_w <= 0xFFFF_FFFF,
                ;
            }
        }
        PixelRect {
            x: self.left as i64 + start as i64 * self.cell_w as i64,
            y: self.top as i64 + row as i64 * self.cell_h as i64,
            w: (end - start) as i64 * self.cell_w as i64,
            h: self.cell_h as i64,
        }
    }
}

/// The text of a cell to be drawn from a font, and where. `direct` is its character
/// where the font's charmap is to be asked first; otherwise, and where the charmap has
/// no glyph for it, the text is shaped.
pub struct GlyphCell {
    /// The cells that the text is centered in.
    pub place: PixelRect,
    /// Which of the font's four faces draws it.
    pub face: usize,
    pub text: String,
    pub direct: Option<char>,
    pub color: Color,
}

/// What a [`GlyphCell`] holds.
pub ghost struct GlyphState {
    pub place: PixelRect,
    pub face: int,
    pub text: Seq<char>,
    pub direct: Option<char>,
    pub color: Color,
}

impl View for GlyphCell {
    type V = GlyphState;

    open spec fn view(&self) -> GlyphState {
        GlyphState {
            place: self.place,
            face: self.face as int,
            text: self.text@,
            direct: self.direct,
            color: self.color,
        }
    }
}

/// A decorated run of cells. What height and thickness the line has is the font's to
/// say.
#[derive(Clone, Copy, Debug)]
pub struct DecorationRun {
    pub place: PixelRect,
    pub kind: DecorationKind,
    pub color: Color,
}

/// What a scene holds.
pub ghost struct SceneState {
    pub rects: Seq<SceneRect>,
    pub glyphs: Seq<GlyphState>,
    pub decorations: Seq<DecorationRun>,
}

impl SceneState {
    pub open spec fn empty() -> SceneState {
        SceneState { rects: Seq::empty(), glyphs: Seq::empty(), decorations: Seq::empty() }
    }

    /// One scene after the other.
    pub open spec fn then_draw(self, other: SceneState) -> SceneState {
        SceneState {
            rects: self.rects + other.rects,
            glyphs: self.glyphs + other.glyphs,
            decorations: self.decorations + other.decorations,
        }
    }
}

/// The background colors of a row.
pub open spec fn backgrounds(row: cells::RowState) -> Seq<Option<Color>> {
    Seq::new(row.cells.len(), |i: int| row.cells[i].bg)
}

/// The foreground colors of the cells that a style bit is set in.
pub open spec fn lit(row: cells::RowState, bit: u8) -> Seq<Option<Color>> {
    Seq::new(
        row.cells.len(),
        |i: int|
            if row.cells[i].style.has(CellStyle(bit)) {
                Some(row.cells[i].fg)
            } else {
                None
            },
    )
}

/// The background rectangles of a row.
pub open spec fn background_rects(row: cells::RowState, r: int, layout: GridLayout) -> Seq<
    SceneRect,
> {
    let runs = runs_from(backgrounds(row), 0);
    Seq::new(
        runs.len(),
        |k: int|
            SceneRect {
                rect: layout.strip(r, runs[k].start as int, runs[k].end as int),
                color: runs[k].color,
                quarters: 4,
            },
    )
}

/// The runs of one decoration in a row.
pub open spec fn decoration_runs(
    row: cells::RowState,
    r: int,
    layout: GridLayout,
    bit: u8,
    kind: DecorationKind,
) -> Seq<DecorationRun> {
    let runs = runs_from(lit(row, bit), 0);
    Seq::new(
        runs.len(),
        |k: int|
            DecorationRun {
                place: layout.strip(r, runs[k].start as int, runs[k].end as int),
                kind,
                color: runs[k].color,
            },
    )
}

/// Cells that the character in a column occupies, and never past the last column.
pub open spec fn cell_span(row: cells::RowState, c: int) -> int {
    let wanted = if row.clusters.contains_key(c) {
        width::cluster_width_of(row.clusters[c])
    } else {
        width::width_of(row.cells[c].ch)
    };
    let left = row.cells.len() - c;
    if wanted < left {
        wanted
    } else {
        left
    }
}

/// The cell is drawn as rectangles: a lone box-drawing or block character.
pub open spec fn drawn_as_rects(row: cells::RowState, c: int) -> bool {
    !row.clusters.contains_key(c) && boxes::is_procedural(row.cells[c].ch as int)
}

/// The rectangles that draw a cell.
pub open spec fn cell_rects(row: cells::RowState, r: int, c: int, layout: GridLayout) -> Seq<
    SceneRect,
> {
    let cell = row.cells[c];
    if cell.ch != Cell::CONTINUATION && drawn_as_rects(row, c) {
        boxes::painted(
            boxes::procedural_rects(
                cell.ch as int,
                layout.strip(r, c, c + cell_span(row, c)),
            ),
            cell.fg,
            boxes::quarters_of(cell.ch as int) as u32,
        )
    } else {
        Seq::empty()
    }
}

/// What a cell asks of the font, if anything: the second half of a wide character, a
/// cell drawn as rectangles and a space ask nothing.
pub open spec fn cell_glyph(
    row: cells::RowState,
    r: int,
    c: int,
    layout: GridLayout,
) -> Option<GlyphState> {
    let cell = row.cells[c];
    let alone = !row.clusters.contains_key(c);
    if cell.ch == Cell::CONTINUATION || drawn_as_rects(row, c) || (cell.ch == ' ' && alone) {
        None
    } else {
        Some(
            GlyphState {
                place: layout.strip(r, c, c + cell_span(row, c)),
                face: cell.style.face_index(),
                text: if alone {
                    seq![cell.ch]
                } else {
                    row.clusters[c]
                },
                direct: if alone && !width::emoji_code(cell.ch as int) {
                    Some(cell.ch)
                } else {
                    None
                },
                color: cell.fg,
            },
        )
    }
}

/// What the first `n` cells of a row draw themselves.
pub open spec fn cells_scene(row: cells::RowState, r: int, layout: GridLayout, n: int) -> SceneState
    decreases n,
{
    if n <= 0 {
        SceneState::empty()
    } else {
        let before = cells_scene(row, r, layout, n - 1);
        SceneState {
            rects: before.rects + cell_rects(row, r, n - 1, layout),
            glyphs: match cell_glyph(row, r, n - 1, layout) {
                Some(glyph) => before.glyphs.push(glyph),
                None => before.glyphs,
            },
            decorations: before.decorations,
        }
    }
}

/// What a row draws: its backgrounds, then its cells, then its decorations.
pub open spec fn row_scene(row: cells::RowState, r: int, layout: GridLayout) -> SceneState {
    let own = cells_scene(row, r, layout, row.cells.len() as int);
    SceneState {
        rects: background_rects(row, r, layout) + own.rects,
        glyphs: own.glyphs,
        decorations: decoration_runs(
            row,
            r,
            layout,
            CellStyle::UNDERLINE,
            DecorationKind::Underline,
        ) + decoration_runs(row, r, layout, CellStyle::STRIKE, DecorationKind::Strikethrough),
    }
}

/// What the first `n` rows of the viewport draw, top to bottom.
pub open spec fn rows_scene(state: grid::GridState, layout: GridLayout, n: int) -> SceneState
    decreases n,
{
    if n <= 0 {
        SceneState::empty()
    } else {
        let before = rows_scene(state, layout, n - 1);
        match state.shown(n - 1) {
            Some(row) => before.then_draw(row_scene(row, n - 1, layout)),
            None => before,
        }
    }
}

/// The instances one viewport translates into: merged background runs and the
/// procedural box-drawing rectangles, glyph cells, and underline and strikeout runs.
///
/// Keep one and hand it back to [`TermGrid::build`] every frame, so that a grid redrawn
/// at 60 frames a second reuses its storage.
pub struct GridScene {
    pub rects: Vec<SceneRect>,
    pub glyphs: Vec<GlyphCell>,
    pub decorations: Vec<DecorationRun>,
}

/// The views of glyph cells.
pub open spec fn glyph_states(glyphs: Seq<GlyphCell>) -> Seq<GlyphState> {
    Seq::new(glyphs.len(), |i: int| glyphs[i]@)
}

impl View for GridScene {
    type V = SceneState;

    open spec fn view(&self) -> SceneState {
        SceneState {
            rects: self.rects@,
            glyphs: glyph_states(self.glyphs@),
            decorations: self.decorations@,
        }
    }
}

impl GridScene {
    /// An empty scene.
    pub fn new() -> (scene: GridScene)
        ensures
            scene@ == SceneState::empty(),
    {
        let scene = GridScene { rects: Vec::new(), glyphs: Vec::new(), decorations: Vec::new() };
        assert(scene@.rects =~= Seq::empty());
        assert(scene@.glyphs =~= Seq::empty());
        assert(scene@.decorations =~= Seq::empty());
        scene
    }

    /// Total count of what the scene holds.
    pub fn instances(&self) -> (count: usize)
        requires
            self@.rects.len() + self@.glyphs.len() + self@.decorations.len() <= usize::MAX,
        ensures
            count == self@.rects.len() + self@.glyphs.len() + self@.decorations.len(),
    {
        self.rects.len() + self.glyphs.len() + self.decorations.len()
    }

    fn clear(&mut self)
        ensures
            final(self)@ == SceneState::empty(),
    {
        self.rects.clear();
        self.glyphs.clear();
        self.decorations.clear();
        assert(self@.rects =~= Seq::empty());
        assert(self@.glyphs =~= Seq::empty());
        assert(self@.decorations =~= Seq::empty());
    }
}

/// Appends the background rectangles of a row.
fn push_backgrounds(row: &Row, r: u16, layout: GridLayout, out: &mut Vec<SceneRect>)
    requires
        row@.cells.len() <= u16::MAX,
    ensures
        final(out)@ == old(out)@ + background_rects(row@, r as int, layout),
{
    let mut colors: Vec<Option<Color>> = Vec::new();
    let mut c: usize = 0;
    while c < row.len()
        invariant
            c <= row@.cells.len(),
            colors@ == backgrounds(row@).take(c as int),
        decreases row@.cells.len() - c,
    {
        colors.push(row.cell(c).bg);
        c = c + 1;
        assert(colors@ =~= backgrounds(row@).take(c as int));
    }
    assert(colors@ =~= backgrounds(row@));
    let runs: Vec<ColorRun> = color_runs(&colors);
    proof {
        lemma_runs_maximal(colors@, 0);
    }
    let ghost want = background_rects(row@, r as int, layout);
    let mut k: usize = 0;
    assert(out@ =~= old(out)@ + want.take(0));
    while k < runs.len()
        invariant
            k <= runs@.len(),
            runs@ == runs_from(backgrounds(row@), 0),
            want == background_rects(row@, r as int, layout),
            forall|i: int|
                0 <= i < runs@.len() ==> (#[trigger] runs@[i]).start <= runs@[i].end <= u16::MAX,
            out@ == old(out)@ + want.take(k as int),
        decreases runs@.len() - k,
    {
        let run: ColorRun = runs[k];
        out.push(
            SceneRect {
                rect: layout.strip_px(r, run.start, run.end),
                color: run.color,
                quarters: 4,
            },
        );
        k = k + 1;
        assert(want.take(k as int) =~= want.take(k - 1).push(want[k - 1]));
        assert(out@ =~= old(out)@ + want.take(k as int));
    }
    assert(want.take(k as int) =~= want);
}

/// Appends the runs of one decoration in a row.
fn push_decorations(
    row: &Row,
    r: u16,
    layout: GridLayout,
    bit: u8,
    kind: DecorationKind,
    out: &mut Vec<DecorationRun>,
)
    requires
        row@.cells.len() <= u16::MAX,
    ensures
        final(out)@ == old(out)@ + decoration_runs(row@, r as int, layout, bit, kind),
{
    let mut colors: Vec<Option<Color>> = Vec::new();
    let mut c: usize = 0;
    while c < row.len()
        invariant
            c <= row@.cells.len(),
            colors@ == lit(row@, bit).take(c as int),
        decreases row@.cells.len() - c,
    {
        let cell: Cell = row.cell(c);
        if cell.style.contains(CellStyle(bit)) {
            colors.push(Some(cell.fg));
        } else {
            colors.push(None);
        }
        c = c + 1;
        assert(colors@ =~= lit(row@, bit).take(c as int));
    }
    assert(colors@ =~= lit(row@, bit));
    let runs: Vec<ColorRun> = color_runs(&colors);
    proof {
        lemma_runs_maximal(colors@, 0);
    }
    let ghost want = decoration_runs(row@, r as int, layout, bit, kind);
    let mut k: usize = 0;
    assert(out@ =~= old(out)@ + want.take(0));
    while k < runs.len()
        invariant
            k <= runs@.len(),
            runs@ == runs_from(lit(row@, bit), 0),
            want == decoration_runs(row@, r as int, layout, bit, kind),
            forall|i: int|
                0 <= i < runs@.len() ==> (#[trigger] runs@[i]).start <= runs@[i].end <= u16::MAX,
            out@ == old(out)@ + want.take(k as int),
        decreases runs@.len() - k,
    {
        let run: ColorRun = runs[k];
        out.push(
            DecorationRun {
                place: layout.strip_px(r, run.start, run.end),
                kind,
                color: run.color,
            },
        );
        k = k + 1;
        assert(want.take(k as int) =~= want.take(k - 1).push(want[k - 1]));
        assert(out@ =~= old(out)@ + want.take(k as int));
    }
    assert(want.take(k as int) =~= want);
}

/// A string of one character.
fn text_of(ch: char) -> (text: String)
    ensures
        text@ == seq![ch],
{
    let mut text: String = String::new();
    push_char(&mut text, ch);
    assert(text@ =~= seq![ch]);
    text
}

/// `String::push` of std: appends one character.
#[verifier::external_body]
fn push_char(text: &mut String, ch: char)
    ensures
        final(text)@ == old(text)@.push(ch),
{
    text.push(ch);
}

/// Draws one cell.
fn push_cell(row: &Row, r: u16, c: u16, layout: GridLayout, scene: &mut GridScene)
    requires
        row.wf(),
        layout.valid(),
        c < row@.cells.len() <= u16::MAX,
    ensures
        final(scene)@ == (SceneState {
            rects: old(scene)@.rects + cell_rects(row@, r as int, c as int, layout),
            glyphs: match cell_glyph(row@, r as int, c as int, layout) {
                Some(glyph) => old(scene)@.glyphs.push(glyph),
                None => old(scene)@.glyphs,
            },
            decorations: old(scene)@.decorations,
        }),
{
    let cell: Cell = row.cell(c as usize);
    if cell.is_continuation() {
        assert(scene@.rects =~= scene@.rects + cell_rects(row@, r as int, c as int, layout));
        return;
    }
    let cluster: Option<&str> = row.cluster(c);
    let wanted: u16 = match cluster {
        Some(text) => width::cluster_width(text),
        None => width::char_width(cell.ch),
    };
    let left: usize = row.len() - c as usize;
    let span: usize = if (wanted as usize) < left {
        wanted as usize
    } else {
        left
    };
    let place: PixelRect = layout.strip_px(r, c as usize, c as usize + span);
    // Box drawing and block elements never touch the font: their geometry is the cell,
    // so it joins its neighbours exactly.
    if cluster.is_none() && push_procedural(cell.ch, place, cell.fg, &mut scene.rects) {
        assert(scene@.glyphs == old(scene)@.glyphs);
        return;
    }
    assert(scene@.rects =~= old(scene)@.rects + cell_rects(row@, r as int, c as int, layout));
    if cell.ch == ' ' && cluster.is_none() {
        return;
    }
    let direct: Option<char> = if cluster.is_none() && !width::is_emoji(cell.ch) {
        Some(cell.ch)
    } else {
        None
    };
    let text: String = match cluster {
        Some(text) => text.to_owned(),
        None => text_of(cell.ch),
    };
    let glyph = GlyphCell { place, face: cell.style.face(), text, direct, color: cell.fg };
    assert(Some(glyph@) == cell_glyph(row@, r as int, c as int, layout));
    scene.glyphs.push(glyph);
    assert(scene@.glyphs =~= old(scene)@.glyphs.push(glyph@));
}

impl TermGrid {
    /// Translates the viewport into instances.
    ///
    /// Backgrounds merge across cells that share a color, so a run of 200 unstyled cells
    /// is one rectangle and not 200.
    pub fn build(&self, layout: GridLayout, scene: &mut GridScene)
        requires
            self.wf(),
            layout.valid(),
        ensures
            final(scene)@ == rows_scene(self@, layout, self@.screen.len() as int),
    {
        scene.clear();
        let mut r: u16 = 0;
        while r < self.rows()
            invariant
                self.wf(),
                layout.valid(),
                r <= self@.screen.len(),
                scene@ == rows_scene(self@, layout, r as int),
            decreases self@.screen.len() - r,
        {
            let ghost start = scene@;
            if let Some(row) = self.visible_row(r) {
                let ghost own = row@;
                let cols: u16 = self.cols();
                push_backgrounds(row, r, layout, &mut scene.rects);
                let ghost lead = start.rects + background_rects(own, r as int, layout);
                let mut c: u16 = 0;
                assert(scene@.rects =~= lead + cells_scene(own, r as int, layout, 0).rects);
                assert(scene@.glyphs =~= start.glyphs + cells_scene(
                    own,
                    r as int,
                    layout,
                    0,
                ).glyphs);
                while c < cols
                    invariant
                        row.wf(),
                        layout.valid(),
                        own == row@,
                        cols == own.cells.len(),
                        c <= cols,
                        scene@.rects == lead + cells_scene(own, r as int, layout, c as int).rects,
                        scene@.glyphs == start.glyphs + cells_scene(
                            own,
                            r as int,
                            layout,
                            c as int,
                        ).glyphs,
                        scene@.decorations == start.decorations,
                    decreases cols - c,
                {
                    push_cell(row, r, c, layout, scene);
                    c = c + 1;
                    assert(scene@.rects =~= lead + cells_scene(
                        own,
                        r as int,
                        layout,
                        c as int,
                    ).rects);
                    assert(scene@.glyphs =~= start.glyphs + cells_scene(
                        own,
                        r as int,
                        layout,
                        c as int,
                    ).glyphs);
                }
                push_decorations(
                    row,
                    r,
                    layout,
                    CellStyle::UNDERLINE,
                    DecorationKind::Underline,
                    &mut scene.decorations,
                );
                push_decorations(
                    row,
                    r,
                    layout,
                    CellStyle::STRIKE,
                    DecorationKind::Strikethrough,
                    &mut scene.decorations,
                );
                proof {
                    let want = start.then_draw(row_scene(own, r as int, layout));
                    assert(scene@.rects =~= want.rects);
                    assert(scene@.glyphs =~= want.glyphs);
                    assert(scene@.decorations =~= want.decorations);
                }
            }
            r = r + 1;
        }
    }
}

/// The rectangle is the cells `start..end` of a row: as many cells wide, one cell high, as
/// many cells from the left and as many rows from the top.
pub open spec fn is_strip(
    rect: PixelRect,
    layout: GridLayout,
    r: int,
    start: int,
    end: int,
) -> bool {
    &&& rect.x == layout.left + start * layout.cell_w
    &&& rect.y == layout.top + r * layout.cell_h
    &&& rect.w == (end - start) * layout.cell_w
    &&& rect.h == layout.cell_h
}

/// The cell holds a character by itself.
pub open spec fn is_lone(row: cells::RowState, c: int) -> bool {
    !row.clusters.contains_key(c) && row.cells[c].ch != '\0'
}

/// The cell holds a box-drawing or block character, and nothing with it.
pub open spec fn is_box(row: cells::RowState, c: int) -> bool {
    is_lone(row, c) && 0x2500 <= row.cells[c].ch as int <= 0x259F
}

/// The cell asks the font for a glyph: it holds a cluster, or a character that is neither a
/// space nor one to be drawn as a box; the second half of a wide character does not.
pub open spec fn asks_font(row: cells::RowState, c: int) -> bool {
    &&& row.cells[c].ch != '\0'
    &&& !is_box(row, c)
    &&& !(is_lone(row, c) && row.cells[c].ch == ' ')
}

/// What stands in the cell is two cells wide.
pub open spec fn is_wide_cell(row: cells::RowState, c: int) -> bool {
    if row.clusters.contains_key(c) {
        row.clusters[c].contains('\u{FE0F}') || width::is_wide(row.clusters[c][0] as int)
    } else {
        width::is_wide(row.cells[c].ch as int)
    }
}

/// The glyph cell shows the cell of a row in a column: its foreground, its face, its text,
/// and its place.
pub open spec fn shows_cell(
    glyph: GlyphState,
    row: cells::RowState,
    r: int,
    c: int,
    layout: GridLayout,
) -> bool {
    let cell = row.cells[c];
    &&& glyph.color == cell.fg
    &&& 0 <= glyph.face < 4
    &&& (glyph.face == 1 || glyph.face == 3) == (cell.style.0 & 1 == 1)
    &&& (glyph.face == 2 || glyph.face == 3) == (cell.style.0 & 2 == 2)
    &&& is_lone(row, c) ==> glyph.text.len() == 1 && glyph.text[0] == cell.ch
    &&& row.clusters.contains_key(c) ==> glyph.text == row.clusters[c]
    &&& glyph.direct == (if is_lone(row, c) && !width::emoji_code(cell.ch as int) {
        Some(cell.ch)
    } else {
        None
    })
    &&& glyph.text.len() > 0 ==> is_strip(
        glyph.place,
        layout,
        r,
        c,
        if is_wide_cell(row, c) && c + 1 < row.cells.len() {
            c + 2
        } else {
            c + 1
        },
    )
}

/// The glyph cells are those of the first `n` columns of a row that ask for one, from left
/// to right, each in the column that `at` says.
#[verifier::opaque]
pub open spec fn shows_row(
    glyphs: Seq<GlyphState>,
    at: Seq<int>,
    row: cells::RowState,
    r: int,
    layout: GridLayout,
    n: int,
) -> bool {
    &&& at.len() == glyphs.len()
    &&& forall|k: int|
        0 <= k < at.len() ==> 0 <= #[trigger] at[k] < n && asks_font(row, at[k]) && shows_cell(
            glyphs[k],
            row,
            r,
            at[k],
            layout,
        )
    &&& forall|j: int, k: int| 0 <= j < k < at.len() ==> #[trigger] at[j] < #[trigger] at[k]
    &&& forall|c: int| 0 <= c < n && #[trigger] asks_font(row, c) ==> at.contains(c)
}

proof fn lemma_strip(layout: GridLayout, r: int, start: int, end: int)
    requires
        0 <= r <= u16::MAX,
        0 <= start <= end <= u16::MAX + 2,
    ensures
        is_strip(layout.strip(r, start, end), layout, r, start, end),
{
    assert(0 <= start * layout.cell_w <= 0x10001 * 0xFFFF_FFFF) by (nonlinear_arith)
        requires
            0 <= start <= 0x10001,
            0 <= layout.cell_w <= 0xFFFF_FFFF,
    ;
    assert(0 <= r * layout.cell_h <= 0xFFFF * 0xFFFF_FFFF) by (nonlinear_arith)
        requires
            0 <= r <= 0xFFFF,
            0 <= layout.cell_h <= 0xFFFF_FFFF,
    ;
    assert(0 <= (end - start) * layout.cell_w <= 0x10001 * 0xFFFF_FFFF) by (nonlinear_arith)
        requires
            0 <= end - start <= 0x10001,
            0 <= layout.cell_w <= 0xFFFF_FFFF,
    ;
}

#[verifier::spinoff_prover]
proof fn lemma_cell_glyph(row: cells::RowState, r: int, c: int, layout: GridLayout)
    requires
        0 <= c < row.cells.len() <= u16::MAX,
        0 <= r <= u16::MAX,
    ensures
        cell_glyph(row, r, c, layout) is Some <==> asks_font(row, c),
        cell_glyph(row, r, c, layout) matches Some(glyph) ==> shows_cell(glyph, row, r, c, layout),
{
    let cell = row.cells[c];
    let a = cell.style.0;
    lemma_strip(layout, r, c, c + cell_span(row, c));
    if row.clusters.contains_key(c) {
        let text = row.clusters[c];
        assert(text.contains(width::EMOJI_SELECTOR) == text.contains('\u{FE0F}'));
    }
}

#[verifier::spinoff_prover]
proof fn lemma_row_glyphs(row: cells::RowState, r: int, layout: GridLayout, n: int) -> (at: Seq<
    int,
>)
    requires
        0 <= n <= row.cells.len() <= u16::MAX,
        0 <= r <= u16::MAX,
    ensures
        shows_row(cells_scene(row, r, layout, n).glyphs, at, row, r, layout, n),
    decreases n,
{
    reveal(shows_row);
    if n <= 0 {
        Seq::empty()
    } else {
        let before = lemma_row_glyphs(row, r, layout, n - 1);
        lemma_cell_glyph(row, r, n - 1, layout);
        let glyphs = cells_scene(row, r, layout, n - 1).glyphs;
        let all = cells_scene(row, r, layout, n).glyphs;
        if asks_font(row, n - 1) {
            let at = before.push(n - 1);
            assert(all == glyphs.push(cell_glyph(row, r, n - 1, layout)->Some_0));
            assert forall|c: int| 0 <= c < n && #[trigger] asks_font(row, c) implies at.contains(
                c,
            ) by {
                if c == n - 1 {
                    assert(at[at.len() - 1] == c);
                } else {
                    assert(before.contains(c));
                    let k = choose|k: int| 0 <= k < before.len() && before[k] == c;
                    assert(at[k] == c);
                }
            }
            at
        } else {
            before
        }
    }
}


/// The cells of a viewport come row by row, and from left to right in a row.
pub open spec fn in_reading_order(a: (int, int), b: (int, int)) -> bool {
    a.0 < b.0 || a.0 == b.0 && a.1 < b.1
}

/// The row and the column are of the viewport's first `n` rows, and the cell there asks the
/// font for a glyph.
pub open spec fn viewport_asks(state: grid::GridState, n: int, r: int, c: int) -> bool {
    &&& 0 <= r < n
    &&& state.shown(r) matches Some(row) && 0 <= c < row.cells.len() && asks_font(row, c)
}

/// The glyph cells are those of the first `n` rows of the viewport that ask for one, in
/// reading order, each at the row and the column that `at` says.
#[verifier::opaque]
pub open spec fn shows_viewport(
    glyphs: Seq<GlyphState>,
    at: Seq<(int, int)>,
    state: grid::GridState,
    layout: GridLayout,
    n: int,
) -> bool {
    &&& at.len() == glyphs.len()
    &&& forall|k: int|
        0 <= k < at.len() ==> viewport_asks(state, n, (#[trigger] at[k]).0, at[k].1) && shows_cell(
            glyphs[k],
            state.shown(at[k].0)->Some_0,
            at[k].0,
            at[k].1,
            layout,
        )
    &&& forall|j: int, k: int|
        0 <= j < k < at.len() ==> in_reading_order(#[trigger] at[j], #[trigger] at[k])
    &&& forall|r: int, c: int| #[trigger]
        viewport_asks(state, n, r, c) ==> at.contains((r, c))
}

proof fn lemma_glyphs_so_far(state: grid::GridState, layout: GridLayout, n: int) -> (at: Seq<
    (int, int),
>)
    requires
        state.valid(),
        0 <= n <= state.screen.len(),
    ensures
        shows_viewport(rows_scene(state, layout, n).glyphs, at, state, layout, n),
    decreases n,
{
    if n <= 0 {
        reveal(shows_viewport);
        Seq::empty()
    } else {
        let before = lemma_glyphs_so_far(state, layout, n - 1);
        let r = n - 1;
        grid::lemma_viewport(state, r);
        let row = state.shown(r)->Some_0;
        let cols = row.cells.len() as int;
        let own = lemma_row_glyphs(row, r, layout, cols);
        let here = cells_scene(row, r, layout, cols).glyphs;
        let old_glyphs = rows_scene(state, layout, n - 1).glyphs;
        let at = before + Seq::new(own.len(), |k: int| (r, own[k]));
        assert(rows_scene(state, layout, n).glyphs == old_glyphs + here);
        lemma_glyphs_joined(state, layout, r, old_glyphs, before, here, own);
        at
    }
}

#[verifier::spinoff_prover]
proof fn lemma_glyphs_joined(
    state: grid::GridState,
    layout: GridLayout,
    r: int,
    above: Seq<GlyphState>,
    before: Seq<(int, int)>,
    here: Seq<GlyphState>,
    own: Seq<int>,
)
    requires
        0 <= r,
        state.shown(r) is Some,
        shows_viewport(above, before, state, layout, r),
        shows_row(
            here,
            own,
            state.shown(r)->Some_0,
            r,
            layout,
            state.shown(r)->Some_0.cells.len() as int,
        ),
    ensures
        shows_viewport(
            above + here,
            before + Seq::new(own.len(), |k: int| (r, own[k])),
            state,
            layout,
            r + 1,
        ),
{
    reveal(shows_viewport);
    reveal(shows_row);
    let row = state.shown(r)->Some_0;
    let tail = Seq::new(own.len(), |k: int| (r, own[k]));
    let at = before + tail;
    let all = above + here;
    let m = before.len() as int;
    assert forall|k: int| 0 <= k < at.len() implies viewport_asks(
        state,
        r + 1,
        (#[trigger] at[k]).0,
        at[k].1,
    ) && shows_cell(all[k], state.shown(at[k].0)->Some_0, at[k].0, at[k].1, layout) by {
        if k < m {
            assert(at[k] == before[k]);
            assert(all[k] == above[k]);
        } else {
            assert(at[k] == (r, own[k - m]));
            assert(all[k] == here[k - m]);
        }
    }
    assert forall|j: int, k: int| 0 <= j < k < at.len() implies in_reading_order(
        #[trigger] at[j],
        #[trigger] at[k],
    ) by {
        if k < m {
            assert(at[j] == before[j] && at[k] == before[k]);
        } else if j < m {
            assert(at[j] == before[j]);
            assert(viewport_asks(state, r, before[j].0, before[j].1));
        } else {
            assert(at[j] == (r, own[j - m]) && at[k] == (r, own[k - m]));
            assert(own[j - m] < own[k - m]);
        }
    }
    assert forall|i: int, c: int| #[trigger] viewport_asks(state, r + 1, i, c) implies at.contains(
        (i, c),
    ) by {
        if i < r {
            assert(viewport_asks(state, r, i, c));
            assert(before.contains((i, c)));
            let k = choose|k: int| 0 <= k < before.len() && before[k] == (i, c);
            assert(at[k] == (i, c));
        } else {
            assert(asks_font(row, c));
            assert(own.contains(c));
            let k = choose|k: int| 0 <= k < own.len() && own[k] == c;
            assert(at[m + k] == (i, c));
        }
    }
}

/// The glyph cells of a scene are the cells of the viewport that ask the font for one, in
/// reading order, and each shows its cell: in the cell's foreground, its face and its text,
/// where the cell is.
pub proof fn lemma_scene_shows_viewport(state: grid::GridState, layout: GridLayout)
    requires
        state.valid(),
    ensures
        exists|at: Seq<(int, int)>|
            #[trigger] shows_viewport(
                rows_scene(state, layout, state.screen.len() as int).glyphs,
                at,
                state,
                layout,
                state.screen.len() as int,
            ),
{
    let at = lemma_glyphs_so_far(state, layout, state.screen.len() as int);
}

/// Every cell of the viewport that asks for a glyph has one in the scene that shows it, and
/// has the cell's foreground.
pub proof fn lemma_cell_has_its_glyph(state: grid::GridState, layout: GridLayout, r: int, c: int)
    requires
        state.valid(),
        viewport_asks(state, state.screen.len() as int, r, c),
    ensures
        ({
            let glyphs = rows_scene(state, layout, state.screen.len() as int).glyphs;
            let row = state.shown(r)->Some_0;
            exists|k: int|
                {
                    &&& 0 <= k < glyphs.len()
                    &&& shows_cell(#[trigger] glyphs[k], row, r, c, layout)
                    &&& glyphs[k].color == row.cells[c].fg
                }
        }),
{
    let n = state.screen.len() as int;
    let at = lemma_glyphs_so_far(state, layout, n);
    let glyphs = rows_scene(state, layout, n).glyphs;
    reveal(shows_viewport);
    assert(at.contains((r, c)));
    let k = choose|k: int| 0 <= k < at.len() && at[k] == (r, c);
    assert(shows_cell(glyphs[k], state.shown(r)->Some_0, r, c, layout));
}

/// Text printed in a color is shown in it: every cell that printing at a row and a column
/// writes, and that asks for a glyph, has one in the scene in that color and with the text
/// printed there.
#[verifier::spinoff_prover]
pub proof fn lemma_print_shows_in_color(
    state: grid::GridState,
    layout: GridLayout,
    col: int,
    row: int,
    clusters: Seq<Seq<char>>,
    ink: grid::Ink,
    k: int,
)
    requires
        state.valid(),
        state.view_offset == 0,
        0 <= col,
        0 <= row < state.screen.len(),
        0 <= k < clusters.len(),
        grid::columns_of(clusters[k]) > 0,
        col + grid::advance(clusters, k) + grid::columns_of(clusters[k]) <= state.cols,
        clusters[k] != seq![' '],
        clusters[k].len() == 1 ==> !(0x2500 <= clusters[k][0] as int <= 0x259F),
    ensures
        ({
            let after = state.with_print(col, row, clusters, ink);
            let glyphs = rows_scene(after, layout, after.screen.len() as int).glyphs;
            let c = col + grid::advance(clusters, k);
            exists|i: int|
                {
                    &&& 0 <= i < glyphs.len()
                    &&& (#[trigger] glyphs[i]).color == ink.fg
                    &&& glyphs[i].text == clusters[k]
                    &&& glyphs[i].place.x == layout.left + c * layout.cell_w
                    &&& glyphs[i].place.y == layout.top + row * layout.cell_h
                }
        }),
{
    let after = state.with_print(col, row, clusters, ink);
    let c = col + grid::advance(clusters, k);
    grid::lemma_print_touches_one_row(state, col, row, clusters, ink);
    grid::lemma_print_lands(state.screen[row], state.cols, col, clusters, ink, k);
    grid::lemma_advance_up(clusters, k);
    grid::lemma_viewport(after, row);
    let own = after.screen[row];
    let cluster = clusters[k];
    assert(own.cells[c].ch != '\0');
    if cluster.len() == 1 {
        assert(cluster =~= seq![cluster[0]]);
    }
    assert(asks_font(own, c));
    let n = after.screen.len() as int;
    lemma_cell_has_its_glyph(after, layout, row, c);
    let glyphs = rows_scene(after, layout, n).glyphs;
    let i = choose|i: int|
        {
            &&& 0 <= i < glyphs.len()
            &&& shows_cell(#[trigger] glyphs[i], own, row, c, layout)
            &&& glyphs[i].color == own.cells[c].fg
        };
    assert(glyphs[i].text =~= cluster);
}

/// The cells `start..end` of a row are a run of one color: each of them has a color, of
/// which the first is the run's and the others compare equal to it, and the cell behind the
/// run goes on in no equal color.
pub open spec fn is_run(
    colors: spec_fn(int) -> Option<Color>,
    cols: int,
    start: int,
    end: int,
    color: Color,
) -> bool {
    &&& 0 <= start < end <= cols
    &&& colors(start) == Some(color)
    &&& forall|i: int|
        start < i < end ==> (#[trigger] colors(i) matches Some(c) && color.same(c))
    &&& end < cols ==> !(colors(end) matches Some(c) && color.same(c))
}

/// The rectangle is a background of a row: a run of cells of one background color, as a
/// solid rectangle of that color.
#[verifier::opaque]
pub open spec fn is_background(
    rect: SceneRect,
    row: cells::RowState,
    r: int,
    layout: GridLayout,
) -> bool {
    rect.quarters == 4 && exists|start: int, end: int|
        #![trigger is_strip(rect.rect, layout, r, start, end)]
        is_strip(rect.rect, layout, r, start, end) && is_run(
            |i: int| row.cells[i].bg,
            row.cells.len() as int,
            start,
            end,
            rect.color,
        )
}

/// The rectangle is a piece of the character of a cell that holds a box-drawing or block
/// character: one that the character's geometry has in the cell, in the cell's foreground.
#[verifier::opaque]
pub open spec fn is_box_piece(
    rect: SceneRect,
    row: cells::RowState,
    r: int,
    c: int,
    layout: GridLayout,
) -> bool {
    &&& 0 <= c < row.cells.len()
    &&& is_box(row, c)
    &&& rect.color == row.cells[c].fg
    &&& rect.quarters == boxes::quarters_of(row.cells[c].ch as int)
    &&& exists|place: PixelRect|
        #![trigger is_strip(place, layout, r, c, c + 1)]
        is_strip(place, layout, r, c, c + 1) && boxes::procedural_rects(
            row.cells[c].ch as int,
            place,
        ).contains(rect.rect)
}

/// The rectangle is a piece of the character of some cell of a row.
#[verifier::opaque]
pub open spec fn is_some_box_piece(
    rect: SceneRect,
    row: cells::RowState,
    r: int,
    layout: GridLayout,
) -> bool {
    exists|c: int| #[trigger] is_box_piece(rect, row, r, c, layout)
}

/// The run of a decoration is one of a row: a run of cells that have the style bit, in their
/// foreground.
#[verifier::opaque]
pub open spec fn is_line_of(
    run: DecorationRun,
    row: cells::RowState,
    r: int,
    layout: GridLayout,
    bit: u8,
) -> bool {
    exists|start: int, end: int|
        #![trigger is_strip(run.place, layout, r, start, end)]
        is_strip(run.place, layout, r, start, end) && is_run(
            |i: int|
                if row.cells[i].style.0 & bit == bit {
                    Some(row.cells[i].fg)
                } else {
                    None
                },
            row.cells.len() as int,
            start,
            end,
            run.color,
        )
}

/// The cell in a column lies in the rectangle.
pub open spec fn has_column(rect: PixelRect, layout: GridLayout, r: int, c: int) -> bool {
    &&& rect.x <= layout.left + c * layout.cell_w
    &&& layout.left + (c + 1) * layout.cell_w <= rect.x + rect.w
    &&& rect.y == layout.top + r * layout.cell_h
    &&& rect.h == layout.cell_h
}

proof fn lemma_has_column(
    rect: PixelRect,
    layout: GridLayout,
    r: int,
    start: int,
    end: int,
    c: int,
)
    requires
        is_strip(rect, layout, r, start, end),
        start <= c < end,
    ensures
        has_column(rect, layout, r, c),
{
    let w = layout.cell_w as int;
    assert(start * w <= c * w) by (nonlinear_arith)
        requires
            start <= c,
            0 <= w,
    ;
    assert((c + 1) * w <= end * w) by (nonlinear_arith)
        requires
            c + 1 <= end,
            0 <= w,
    ;
    assert((end - start) * w == end * w - start * w) by (nonlinear_arith);
}

#[verifier::spinoff_prover]
proof fn lemma_backgrounds_right(row: cells::RowState, r: int, layout: GridLayout)
    requires
        row.cells.len() <= u16::MAX,
        0 <= r <= u16::MAX,
    ensures
        ({
            let rects = background_rects(row, r, layout);
            &&& forall|k: int|
                0 <= k < rects.len() ==> is_background(#[trigger] rects[k], row, r, layout)
            &&& forall|c: int|
                0 <= c < row.cells.len() && (#[trigger] row.cells[c]).bg is Some ==> exists|k: int|
                    0 <= k < rects.len() && has_column(#[trigger] rects[k].rect, layout, r, c)
        }),
{
    let colors = backgrounds(row);
    let runs = runs_from(colors, 0);
    let rects = background_rects(row, r, layout);
    lemma_runs_partition(colors);
    let f = |i: int| row.cells[i].bg;
    assert forall|k: int| 0 <= k < rects.len() implies is_background(
        #[trigger] rects[k],
        row,
        r,
        layout,
    ) by {
        let run = runs[k];
        assert(is_maximal_run(colors, run));
        lemma_strip(layout, r, run.start as int, run.end as int);
        assert forall|i: int| run.start < i < run.end implies (#[trigger] f(i) matches Some(c)
            && run.color.same(c)) by {
            assert(colors[i] == f(i));
        }
        assert(is_run(f, row.cells.len() as int, run.start as int, run.end as int, run.color));
        assert(is_strip(rects[k].rect, layout, r, run.start as int, run.end as int));
        reveal(is_background);
    }
    assert forall|c: int|
        0 <= c < row.cells.len() && (#[trigger] row.cells[c]).bg is Some implies exists|k: int|
        0 <= k < rects.len() && has_column(#[trigger] rects[k].rect, layout, r, c) by {
        assert(colors[c] is Some);
        let k = choose|k: int| 0 <= k < runs.len() && covers(#[trigger] runs[k], c);
        let run = runs[k];
        assert(is_maximal_run(colors, run));
        lemma_strip(layout, r, run.start as int, run.end as int);
        lemma_has_column(rects[k].rect, layout, r, run.start as int, run.end as int, c);
    }
}

#[verifier::spinoff_prover]
proof fn lemma_lines_right(
    row: cells::RowState,
    r: int,
    layout: GridLayout,
    bit: u8,
    kind: DecorationKind,
)
    requires
        row.cells.len() <= u16::MAX,
        0 <= r <= u16::MAX,
    ensures
        ({
            let lines = decoration_runs(row, r, layout, bit, kind);
            &&& forall|k: int|
                0 <= k < lines.len() ==> is_line_of(#[trigger] lines[k], row, r, layout, bit)
                    && lines[k].kind == kind
            &&& forall|c: int|
                0 <= c < row.cells.len() && (#[trigger] row.cells[c]).style.0 & bit == bit
                    ==> exists|k: int|
                    0 <= k < lines.len() && has_column(#[trigger] lines[k].place, layout, r, c)
        }),
{
    let colors = lit(row, bit);
    let runs = runs_from(colors, 0);
    let lines = decoration_runs(row, r, layout, bit, kind);
    lemma_runs_partition(colors);
    let f = |i: int|
        if row.cells[i].style.0 & bit == bit {
            Some(row.cells[i].fg)
        } else {
            None
        };
    assert forall|k: int| 0 <= k < lines.len() implies is_line_of(
        #[trigger] lines[k],
        row,
        r,
        layout,
        bit,
    ) && lines[k].kind == kind by {
        let run = runs[k];
        assert(is_maximal_run(colors, run));
        lemma_strip(layout, r, run.start as int, run.end as int);
        assert forall|i: int| run.start < i < run.end implies (#[trigger] f(i) matches Some(c)
            && run.color.same(c)) by {
            assert(colors[i] == f(i));
        }
        assert(is_run(f, row.cells.len() as int, run.start as int, run.end as int, run.color));
        assert(is_strip(lines[k].place, layout, r, run.start as int, run.end as int));
        reveal(is_line_of);
    }
    assert forall|c: int|
        0 <= c < row.cells.len() && (#[trigger] row.cells[c]).style.0 & bit
            == bit implies exists|k: int|
        0 <= k < lines.len() && has_column(#[trigger] lines[k].place, layout, r, c) by {
        assert(colors[c] is Some);
        let k = choose|k: int| 0 <= k < runs.len() && covers(#[trigger] runs[k], c);
        let run = runs[k];
        assert(is_maximal_run(colors, run));
        lemma_strip(layout, r, run.start as int, run.end as int);
        lemma_has_column(lines[k].place, layout, r, run.start as int, run.end as int, c);
    }
}

/// The row's decorations are right: underlines where the cells are underlined, then lines
/// through the cells that are struck, each under or through every cell of its style.
#[verifier::spinoff_prover]
pub proof fn lemma_row_decorations(row: cells::RowState, r: int, layout: GridLayout)
    requires
        row.cells.len() <= u16::MAX,
        0 <= r <= u16::MAX,
    ensures
        ({
            let lines = row_scene(row, r, layout).decorations;
            &&& forall|k: int|
                0 <= k < lines.len() ==> {
                    ||| (#[trigger] lines[k]).kind == DecorationKind::Underline && is_line_of(
                        lines[k],
                        row,
                        r,
                        layout,
                        4,
                    )
                    ||| lines[k].kind == DecorationKind::Strikethrough && is_line_of(
                        lines[k],
                        row,
                        r,
                        layout,
                        8,
                    )
                }
            &&& forall|c: int|
                0 <= c < row.cells.len() && (#[trigger] row.cells[c]).style.0 & 4 == 4
                    ==> exists|k: int|
                    0 <= k < lines.len() && has_column(#[trigger] lines[k].place, layout, r, c)
                        && lines[k].kind == DecorationKind::Underline
            &&& forall|c: int|
                0 <= c < row.cells.len() && (#[trigger] row.cells[c]).style.0 & 8 == 8
                    ==> exists|k: int|
                    0 <= k < lines.len() && has_column(#[trigger] lines[k].place, layout, r, c)
                        && lines[k].kind == DecorationKind::Strikethrough
        }),
{
    let under = decoration_runs(row, r, layout, CellStyle::UNDERLINE, DecorationKind::Underline);
    let through = decoration_runs(row, r, layout, CellStyle::STRIKE, DecorationKind::Strikethrough);
    let lines = row_scene(row, r, layout).decorations;
    lemma_lines_right(row, r, layout, CellStyle::UNDERLINE, DecorationKind::Underline);
    lemma_lines_right(row, r, layout, CellStyle::STRIKE, DecorationKind::Strikethrough);
    assert(lines == under + through);
    assert forall|k: int| 0 <= k < lines.len() implies {
        ||| (#[trigger] lines[k]).kind == DecorationKind::Underline && is_line_of(
            lines[k],
            row,
            r,
            layout,
            4,
        )
        ||| lines[k].kind == DecorationKind::Strikethrough && is_line_of(
            lines[k],
            row,
            r,
            layout,
            8,
        )
    } by {
        if k < under.len() {
            assert(lines[k] == under[k]);
        } else {
            assert(lines[k] == through[k - under.len()]);
        }
    }
    assert forall|c: int|
        0 <= c < row.cells.len() && (#[trigger] row.cells[c]).style.0 & 4
            == 4 implies exists|k: int|
        0 <= k < lines.len() && has_column(#[trigger] lines[k].place, layout, r, c)
            && lines[k].kind == DecorationKind::Underline by {
        let k = choose|k: int|
            0 <= k < under.len() && has_column(#[trigger] under[k].place, layout, r, c);
        assert(lines[k] == under[k]);
    }
    assert forall|c: int|
        0 <= c < row.cells.len() && (#[trigger] row.cells[c]).style.0 & 8
            == 8 implies exists|k: int|
        0 <= k < lines.len() && has_column(#[trigger] lines[k].place, layout, r, c)
            && lines[k].kind == DecorationKind::Strikethrough by {
        let k = choose|k: int|
            0 <= k < through.len() && has_column(#[trigger] through[k].place, layout, r, c);
        assert(lines[under.len() + k] == through[k]);
    }
}

/// A rectangle that draws a piece of the character in a column.
pub open spec fn box_rect(
    row: cells::RowState,
    r: int,
    c: int,
    layout: GridLayout,
    i: int,
) -> SceneRect {
    SceneRect {
        rect: boxes::procedural_rects(row.cells[c].ch as int, layout.strip(r, c, c + 1))[i],
        color: row.cells[c].fg,
        quarters: boxes::quarters_of(row.cells[c].ch as int) as u32,
    }
}

#[verifier::spinoff_prover]
proof fn lemma_cell_boxes(row: cells::RowState, r: int, c: int, layout: GridLayout)
    requires
        0 <= c < row.cells.len() <= u16::MAX,
        0 <= r <= u16::MAX,
    ensures
        ({
            let rects = cell_rects(row, r, c, layout);
            let whole = boxes::procedural_rects(row.cells[c].ch as int, layout.strip(r, c, c + 1));
            &&& !is_box(row, c) ==> rects.len() == 0
            &&& is_box(row, c) ==> rects.len() == whole.len()
            &&& forall|i: int|
                0 <= i < rects.len() ==> is_box_piece(#[trigger] rects[i], row, r, c, layout)
                    && rects[i] == box_rect(row, r, c, layout, i)
        }),
{
    reveal(is_box_piece);
    let ch = row.cells[c].ch;
    let rects = cell_rects(row, r, c, layout);
    lemma_strip(layout, r, c, c + 1);
    if is_box(row, c) {
        width::lemma_box_is_narrow(ch);
        assert(cell_span(row, c) == 1);
        let place = layout.strip(r, c, c + 1);
        let whole = boxes::procedural_rects(ch as int, place);
        assert forall|i: int| 0 <= i < rects.len() implies is_box_piece(
            #[trigger] rects[i],
            row,
            r,
            c,
            layout,
        ) && rects[i] == box_rect(row, r, c, layout, i) by {
            assert(is_strip(place, layout, r, c, c + 1));
            assert(rects[i].rect == whole[i]);
            assert(whole.contains(rects[i].rect));
        }
    }
}

#[verifier::spinoff_prover]
proof fn lemma_boxes_right(row: cells::RowState, r: int, layout: GridLayout, n: int)
    requires
        0 <= n <= row.cells.len() <= u16::MAX,
        0 <= r <= u16::MAX,
    ensures
        ({
            let rects = cells_scene(row, r, layout, n).rects;
            &&& forall|k: int|
                0 <= k < rects.len() ==> is_some_box_piece(#[trigger] rects[k], row, r, layout)
            &&& forall|c: int, i: int|
                0 <= c < n && is_box(row, c) && 0 <= i < boxes::procedural_rects(
                    row.cells[c].ch as int,
                    layout.strip(r, c, c + 1),
                ).len() ==> rects.contains(#[trigger] box_rect(row, r, c, layout, i))
        }),
    decreases n,
{
    if n > 0 {
        lemma_boxes_right(row, r, layout, n - 1);
        lemma_cell_boxes(row, r, n - 1, layout);
        let before = cells_scene(row, r, layout, n - 1).rects;
        let here = cell_rects(row, r, n - 1, layout);
        let rects = cells_scene(row, r, layout, n).rects;
        assert(rects == before + here);
        assert forall|k: int| 0 <= k < rects.len() implies is_some_box_piece(#[trigger] rects[k], row, r, layout) by {
            if k < before.len() {
                assert(rects[k] == before[k]);
            } else {
                assert(rects[k] == here[k - before.len()]);
                assert(is_box_piece(rects[k], row, r, n - 1, layout));
                reveal(is_some_box_piece);
            }
        }
        assert forall|c: int, i: int|
            0 <= c < n && is_box(row, c) && 0 <= i < boxes::procedural_rects(
                row.cells[c].ch as int,
                layout.strip(r, c, c + 1),
            ).len() implies rects.contains(#[trigger] box_rect(row, r, c, layout, i)) by {
            if c < n - 1 {
                assert(before.contains(box_rect(row, r, c, layout, i)));
                let k = choose|k: int|
                    0 <= k < before.len() && before[k] == box_rect(row, r, c, layout, i);
                assert(rects[k] == before[k]);
            } else {
                assert(here[i] == box_rect(row, r, c, layout, i));
                assert(rects[before.len() + i] == here[i]);
            }
        }
    }
}

/// The rectangles of a row are its backgrounds and, on top of them, the pieces of its
/// box-drawing and block characters; every cell with a background lies in one of the first,
/// and every piece of every such character is one of the others.
#[verifier::spinoff_prover]
pub proof fn lemma_row_rects(row: cells::RowState, r: int, layout: GridLayout)
    requires
        row.cells.len() <= u16::MAX,
        0 <= r <= u16::MAX,
    ensures
        ({
            let rects = row_scene(row, r, layout).rects;
            exists|m: int|
                {
                    &&& 0 <= m <= rects.len()
                    &&& #[trigger] rects_split(rects, m, row, r, layout)
                }
        }),
{
    let back = background_rects(row, r, layout);
    let own = cells_scene(row, r, layout, row.cells.len() as int).rects;
    let rects = row_scene(row, r, layout).rects;
    let m = back.len() as int;
    assert(rects == back + own);
    lemma_backgrounds_right(row, r, layout);
    lemma_boxes_right(row, r, layout, row.cells.len() as int);
    assert forall|k: int| 0 <= k < m implies is_background(#[trigger] rects[k], row, r, layout) by {
        assert(rects[k] == back[k]);
    }
    assert forall|k: int| m <= k < rects.len() implies is_some_box_piece(#[trigger] rects[k], row, r, layout) by {
        assert(rects[k] == own[k - m]);
    }
    assert forall|c: int|
        0 <= c < row.cells.len() && (#[trigger] row.cells[c]).bg is Some implies exists|k: int|
        0 <= k < m && has_column(#[trigger] rects[k].rect, layout, r, c) by {
        let k = choose|k: int|
            0 <= k < back.len() && has_column(#[trigger] back[k].rect, layout, r, c);
        assert(rects[k] == back[k]);
    }
    assert forall|c: int, i: int|
        0 <= c < row.cells.len() && is_box(row, c) && 0 <= i < boxes::procedural_rects(
            row.cells[c].ch as int,
            layout.strip(r, c, c + 1),
        ).len() implies rects.skip(m).contains(#[trigger] box_rect(row, r, c, layout, i)) by {
        assert(rects.skip(m) =~= own);
    }
    assert(rects_split(rects, m, row, r, layout));
}

/// The first `m` rectangles are a row's backgrounds and the others the pieces of its
/// characters.
pub open spec fn rects_split(
    rects: Seq<SceneRect>,
    m: int,
    row: cells::RowState,
    r: int,
    layout: GridLayout,
) -> bool {
    &&& forall|k: int| 0 <= k < m ==> is_background(#[trigger] rects[k], row, r, layout)
    &&& forall|k: int|
        m <= k < rects.len() ==> is_some_box_piece(#[trigger] rects[k], row, r, layout)
    &&& forall|c: int|
        0 <= c < row.cells.len() && (#[trigger] row.cells[c]).bg is Some ==> exists|k: int|
            0 <= k < m && has_column(#[trigger] rects[k].rect, layout, r, c)
    &&& forall|c: int, i: int|
        0 <= c < row.cells.len() && is_box(row, c) && 0 <= i < boxes::procedural_rects(
            row.cells[c].ch as int,
            layout.strip(r, c, c + 1),
        ).len() ==> rects.skip(m).contains(#[trigger] box_rect(row, r, c, layout, i))
}

/// The scene of the viewport is that of its rows, one after the other from the top: what the
/// rows above a row draw comes first, then what the row shown there draws, then the rest.
#[verifier::spinoff_prover]
pub proof fn lemma_scene_row_by_row(state: grid::GridState, layout: GridLayout, r: int, n: int)
    requires
        state.valid(),
        0 <= r < n <= state.screen.len(),
    ensures
        ({
            let above = rows_scene(state, layout, r);
            let all = rows_scene(state, layout, n);
            let own = row_scene(state.shown(r)->Some_0, r, layout);
            &&& (above.rects + own.rects).is_prefix_of(all.rects)
            &&& (above.glyphs + own.glyphs).is_prefix_of(all.glyphs)
            &&& (above.decorations + own.decorations).is_prefix_of(all.decorations)
            &&& r == 0 ==> above.rects.len() == 0 && above.glyphs.len() == 0
                && above.decorations.len() == 0
            &&& r == n - 1 ==> all.rects == above.rects + own.rects && all.glyphs == above.glyphs
                + own.glyphs && all.decorations == above.decorations + own.decorations
        }),
    decreases n,
{
    grid::lemma_viewport(state, n - 1);
    let before = rows_scene(state, layout, n - 1);
    let last = row_scene(state.shown(n - 1)->Some_0, n - 1, layout);
    let all = rows_scene(state, layout, n);
    assert(all == before.then_draw(last));
    if r < n - 1 {
        lemma_scene_row_by_row(state, layout, r, n - 1);
        let above = rows_scene(state, layout, r);
        let own = row_scene(state.shown(r)->Some_0, r, layout);
        let head = (above.rects + own.rects).len() as int;
        assert(all.rects.subrange(0, head) =~= before.rects.subrange(0, head));
        let head = (above.glyphs + own.glyphs).len() as int;
        assert(all.glyphs.subrange(0, head) =~= before.glyphs.subrange(0, head));
        let head = (above.decorations + own.decorations).len() as int;
        assert(all.decorations.subrange(0, head) =~= before.decorations.subrange(0, head));
    } else {
        let head = all.rects.len() as int;
        assert(all.rects.subrange(0, head) =~= all.rects);
        let head = all.glyphs.len() as int;
        assert(all.glyphs.subrange(0, head) =~= all.glyphs);
        let head = all.decorations.len() as int;
        assert(all.decorations.subrange(0, head) =~= all.decorations);
    }
}

/// The second half of a wide character and a box-drawing or block character ask nothing
/// of the font.
pub proof fn lemma_no_glyph(row: cells::RowState, r: int, c: int, layout: GridLayout)
    requires
        0 <= c < row.cells.len(),
        row.cells[c].ch == Cell::CONTINUATION || drawn_as_rects(row, c),
    ensures
        cells_scene(row, r, layout, c + 1).glyphs == cells_scene(row, r, layout, c).glyphs,
{
}

} // verus!
