//! Box drawing and block elements (U+2500 to U+259F) as rectangles.
//!
//! These characters are drawn rather than shaped because their whole job is to
//! meet their neighbours exactly: cells are whole pixels, strokes are centered on
//! the same whole-pixel offsets in every cell, and each arm runs from the center
//! to the cell edge, so two adjacent cells share an edge and a join has no seam.

use vstd::prelude::*;
use crate::box_table;
use crate::box_table::{arms_at, dash_count, Stroke, DOWN, LEFT, RIGHT, UP};
use crate::color::Color;

verus! {

/// A rectangle on whole pixels: left, top, width, height.
#[derive(Clone, Copy, Debug, PartialEq, Eq, Structural)]
pub struct PixelRect {
    pub x: i64,
    pub y: i64,
    pub w: i64,
    pub h: i64,
}

/// Farthest a cell lies from the origin, in pixels.
pub const MAX_OFFSET: i64 = 0x1_0000_0000_0000;

/// Longest side of a cell, in pixels.
pub const MAX_SIDE: i64 = 0x2_0000_0000;

impl PixelRect {
    /// A cell with an area, whose corners and strokes stay far from the limits of
    /// the coordinate type.
    pub open spec fn is_cell(self) -> bool {
        &&& -MAX_OFFSET <= self.x <= MAX_OFFSET
        &&& -MAX_OFFSET <= self.y <= MAX_OFFSET
        &&& 1 <= self.w <= MAX_SIDE
        &&& 1 <= self.h <= MAX_SIDE
    }

    /// The rectangle has an area and lies inside `outer`.
    pub open spec fn inside(self, outer: PixelRect) -> bool {
        &&& outer.x <= self.x
        &&& outer.y <= self.y
        &&& 0 < self.w
        &&& 0 < self.h
        &&& self.x + self.w <= outer.x + outer.w
        &&& self.y + self.h <= outer.y + outer.h
    }
}

/// `n / d` rounded to the nearest integer, halves away from zero.
pub open spec fn rounded(n: int, d: int) -> int {
    if n >= 0 {
        (2 * n + d) / (2 * d)
    } else {
        -((-2 * n + d) / (2 * d))
    }
}

/// A rounded quotient stays between two integers that the quotient lies between.
pub proof fn lemma_rounded_between(n: int, d: int, low: int, high: int)
    requires
        0 < d,
        low * d <= n <= high * d,
    ensures
        low <= rounded(n, d) <= high,
{
    let m = if n >= 0 {
        n
    } else {
        -n
    };
    let q = (2 * m + d) / (2 * d);
    vstd::arithmetic::div_mod::lemma_fundamental_div_mod(2 * m + d, 2 * d);
    vstd::arithmetic::div_mod::lemma_mod_bound(2 * m + d, 2 * d);
    let r = (2 * m + d) % (2 * d);
    assert(2 * d * q + r == 2 * m + d);
    if n >= 0 {
        assert(q <= high) by (nonlinear_arith)
            requires
                2 * d * q + r == 2 * m + d,
                0 <= r,
                0 < d,
                m <= high * d,
        ;
        assert(low <= q) by (nonlinear_arith)
            requires
                2 * d * q + r == 2 * m + d,
                r < 2 * d,
                0 < d,
                low * d <= m,
        ;
    } else {
        assert(q <= -low) by (nonlinear_arith)
            requires
                2 * d * q + r == 2 * m + d,
                0 <= r,
                0 < d,
                m <= -(low * d),
        ;
        assert(-high <= q) by (nonlinear_arith)
            requires
                2 * d * q + r == 2 * m + d,
                r < 2 * d,
                0 < d,
                -(high * d) <= m,
        ;
    }
}

/// A rounded quotient is the integer nearest to the quotient, and of two as near the one
/// further from zero.
pub proof fn lemma_rounded_nearest(n: int, d: int)
    requires
        0 < d,
    ensures
        -d <= 2 * (rounded(n, d) * d - n) <= d,
        n >= 0 ==> -d < 2 * (rounded(n, d) * d - n),
        n <= 0 ==> 2 * (rounded(n, d) * d - n) < d,
        rounded(-n, d) == -rounded(n, d),
{
    let m = if n >= 0 {
        n
    } else {
        -n
    };
    let q = (2 * m + d) / (2 * d);
    vstd::arithmetic::div_mod::lemma_fundamental_div_mod(2 * m + d, 2 * d);
    vstd::arithmetic::div_mod::lemma_mod_bound(2 * m + d, 2 * d);
    let r = (2 * m + d) % (2 * d);
    assert(2 * d * q == 2 * (q * d)) by (nonlinear_arith);
    assert((-q) * d == -(q * d)) by (nonlinear_arith);
    if n == 0 {
        assert(q == 0) by (nonlinear_arith)
            requires
                2 * d * q + r == d,
                0 <= r < 2 * d,
                0 < d,
        ;
    }
}

/// [`rounded`], computed.
fn round_div(n: i128, d: i128) -> (q: i128)
    requires
        0 < d <= 0x1_0000_0000_0000_0000,
        -0x1_0000_0000_0000_0000_0000_0000 <= n <= 0x1_0000_0000_0000_0000_0000_0000,
    ensures
        q == rounded(n as int, d as int),
{
    if n >= 0 {
        (2 * n + d) / (2 * d)
    } else {
        let m: i128 = (2 * (-n) + d) / (2 * d);
        proof {
            vstd::arithmetic::div_mod::lemma_div_pos_is_pos(2 * (-n) + d as int, 2 * d as int);
        }
        -m
    }
}

/// Thickness of a light stroke in a cell `h` high: an eighth of the height, the
/// proportion terminal fonts draw it at, and never thinner than a pixel.
pub open spec fn light_of(h: int) -> int {
    if rounded(h, 8) > 1 {
        rounded(h, 8)
    } else {
        1
    }
}

/// Thickness of a heavy stroke: two light ones, and never more than the cell.
pub open spec fn heavy_of(h: int) -> int {
    if 2 * light_of(h) < h {
        2 * light_of(h)
    } else {
        h
    }
}

/// Thickness of a stroke in a cell `h` high.
pub open spec fn thickness(stroke: Stroke, h: int) -> int {
    match stroke {
        Stroke::Absent => 0,
        Stroke::Heavy => heavy_of(h),
        _ => light_of(h),
    }
}

/// Near edge of a bar of thickness `t` centered in a span of `extent` from `at`.
pub open spec fn centered(at: int, extent: int, t: int) -> int {
    at + rounded(extent - t, 2)
}

/// One piece of a rail, from `span.0` to `span.1` along it, at a fixed offset and
/// thickness across it.
pub open spec fn piece(span: (int, int), across: (int, int), horizontal: bool) -> PixelRect {
    if horizontal {
        PixelRect {
            x: span.0 as i64,
            y: across.0 as i64,
            w: (span.1 - span.0) as i64,
            h: across.1 as i64,
        }
    } else {
        PixelRect {
            x: across.0 as i64,
            y: span.0 as i64,
            w: across.1 as i64,
            h: (span.1 - span.0) as i64,
        }
    }
}

/// Spans in order, the empty ones left out and each joined to the one before where
/// they touch. `open` is the span being extended.
pub open spec fn joined(spans: Seq<(int, int)>, open: Option<(int, int)>) -> Seq<(int, int)>
    decreases spans.len(),
{
    if spans.len() == 0 {
        match open {
            Some(span) => seq![span],
            None => seq![],
        }
    } else {
        let next = spans[0];
        let rest = spans.drop_first();
        if next.1 <= next.0 {
            joined(rest, open)
        } else {
            match open {
                None => joined(rest, Some(next)),
                Some(span) => if next.0 <= span.1 {
                    joined(
                        rest,
                        Some(
                            (
                                span.0,
                                if next.1 > span.1 {
                                    next.1
                                } else {
                                    span.1
                                },
                            ),
                        ),
                    )
                } else {
                    seq![span] + joined(rest, Some(next))
                },
            }
        }
    }
}

/// The rectangles of a rail made of spans along it.
pub open spec fn rail(
    spans: Seq<(int, int)>,
    across: (int, int),
    horizontal: bool,
) -> Seq<PixelRect> {
    let runs = joined(spans, None);
    Seq::new(runs.len(), |i: int| piece(runs[i], across, horizontal))
}

/// A span that is there, or the empty one.
pub open spec fn span_if(present: bool, span: (int, int)) -> (int, int) {
    if present {
        span
    } else {
        (0, 0)
    }
}

/// The rectangles of one plain arm: a bar from the far side of the center, where it
/// overlaps the other arms, to the cell edge.
#[verifier::opaque]
pub open spec fn plain_arm(dir: int, stroke: Stroke, cell: PixelRect) -> Seq<PixelRect> {
    let t = thickness(stroke, cell.h as int);
    let cx = centered(cell.x as int, cell.w as int, t);
    let cy = centered(cell.y as int, cell.h as int, t);
    if stroke == Stroke::Absent {
        seq![]
    } else if dir == UP {
        rail(seq![(cell.y as int, cy + t)], (cx, t), false)
    } else if dir == DOWN {
        rail(seq![(cy, cell.y + cell.h)], (cx, t), false)
    } else if dir == LEFT {
        rail(seq![(cell.x as int, cx + t)], (cy, t), true)
    } else {
        rail(seq![(cx, cell.x + cell.w)], (cy, t), true)
    }
}

/// Both arms of an axis are there, and are of different weights.
pub open spec fn differ(before: Stroke, after: Stroke) -> bool {
    before != Stroke::Absent && after != Stroke::Absent && before != after
}

/// The rectangles of the one bar that two opposite arms of different weights are drawn as:
/// from edge to edge, at the thicker weight.
#[verifier::opaque]
pub open spec fn shared_bar(before: Stroke, after: Stroke, cell: PixelRect, horizontal: bool) -> Seq<
    PixelRect,
> {
    let (along, across) = if horizontal {
        ((cell.x as int, cell.w as int), (cell.y as int, cell.h as int))
    } else {
        ((cell.y as int, cell.h as int), (cell.x as int, cell.w as int))
    };
    let t = thickness(before.heavier(after), cell.h as int);
    rail(seq![(along.0, along.0 + along.1)], (centered(across.0, across.1, t), t), horizontal)
}

/// What a character without doubles draws for an arm: the arm by itself, or, where the
/// opposite one is of another weight, the bar of both, once for the two.
pub open spec fn single_arm(arms: Seq<Stroke>, dir: int, cell: PixelRect) -> Seq<PixelRect> {
    if !differ(arms[dir], arms[(dir + 2) % 4]) {
        plain_arm(dir, arms[dir], cell)
    } else if dir == UP {
        shared_bar(arms[UP as int], arms[DOWN as int], cell, false)
    } else if dir == RIGHT {
        shared_bar(arms[LEFT as int], arms[RIGHT as int], cell, true)
    } else {
        seq![]
    }
}

/// The weight that an arm is drawn at in a character without doubles: that of the heavier
/// of it and the one opposite.
pub open spec fn drawn_weight(arms: Seq<Stroke>, dir: int) -> Stroke {
    arms[dir].heavier(arms[(dir + 2) % 4])
}

/// The rectangles of the two opposite arms of a junction with doubles in it, along
/// one axis. `before` and `after` are the arms toward smaller and larger coordinates,
/// `along` and `across` the start and the extent of the cell along the axis and across
/// it, and `crossed` whether a double arm crosses the near and the far rail.
///
/// A double arm is two light rails either side of where the single bar would be. A
/// rail's middle is left out exactly where a double crosses it, while a single arm
/// just runs into the rail it meets.
#[verifier::opaque]
pub open spec fn junction_axis(
    before: Stroke,
    after: Stroke,
    along: (int, int),
    across: (int, int),
    crossed: (bool, bool),
    h: int,
    horizontal: bool,
) -> Seq<PixelRect> {
    let light = light_of(h);
    let (at, extent) = along;
    let mid = centered(at, extent, light);
    let center = centered(across.0, across.1, light);
    if before == Stroke::Double || after == Stroke::Double {
        let first = span_if(before != Stroke::Absent, (at, mid));
        let last = span_if(after != Stroke::Absent, (mid + light, at + extent));
        let middle = (mid - light, mid + 2 * light);
        rail(
            seq![first, span_if(!crossed.0, middle), last],
            (center - light, light),
            horizontal,
        ) + rail(
            seq![first, span_if(!crossed.1, middle), last],
            (center + light, light),
            horizontal,
        )
    } else if before != Stroke::Absent || after != Stroke::Absent {
        let t = thickness(before.heavier(after), h);
        let start = if before != Stroke::Absent {
            at
        } else {
            mid + light
        };
        let end = if after != Stroke::Absent {
            at + extent
        } else {
            mid
        };
        rail(seq![(start, end)], (centered(across.0, across.1, t), t), horizontal)
    } else {
        seq![]
    }
}

/// Whether any arm is a double.
pub open spec fn has_double(arms: Seq<Stroke>) -> bool {
    arms[0] == Stroke::Double || arms[1] == Stroke::Double || arms[2] == Stroke::Double || arms[3]
        == Stroke::Double
}

/// The rectangles of solid arms.
pub open spec fn solid_rects(arms: Seq<Stroke>, cell: PixelRect) -> Seq<PixelRect> {
    if !has_double(arms) {
        single_arm(arms, 0, cell) + single_arm(arms, 1, cell) + single_arm(arms, 2, cell)
            + single_arm(arms, 3, cell)
    } else {
        junction_axis(
            arms[UP as int],
            arms[DOWN as int],
            (cell.y as int, cell.h as int),
            (cell.x as int, cell.w as int),
            (arms[LEFT as int] == Stroke::Double, arms[RIGHT as int] == Stroke::Double),
            cell.h as int,
            false,
        ) + junction_axis(
            arms[LEFT as int],
            arms[RIGHT as int],
            (cell.x as int, cell.w as int),
            (cell.y as int, cell.h as int),
            (arms[UP as int] == Stroke::Double, arms[DOWN as int] == Stroke::Double),
            cell.h as int,
            true,
        )
    }
}

/// Gap between two dashes: a third of the step, and never less than a pixel.
pub open spec fn dash_gap(count: int, len: int) -> int {
    if rounded(len, 3 * count) > 1 {
        rounded(len, 3 * count)
    } else {
        1
    }
}

/// The `i`-th of `count` dashes evenly spaced along `len` from `start`.
pub open spec fn dash_span(count: int, start: int, len: int, i: int) -> (int, int) {
    (
        rounded(start * count + i * len, count),
        rounded(start * count + (i + 1) * len - dash_gap(count, len) * count, count),
    )
}

/// The first `n` dashes of a dashed bar, those with a length.
pub open spec fn dash_rects(
    count: int,
    start: int,
    len: int,
    across: (int, int),
    horizontal: bool,
    n: int,
) -> Seq<PixelRect>
    decreases n,
{
    if n <= 0 {
        seq![]
    } else {
        let span = dash_span(count, start, len, n - 1);
        let before = dash_rects(count, start, len, across, horizontal, n - 1);
        if span.1 > span.0 {
            before.push(piece(span, across, horizontal))
        } else {
            before
        }
    }
}

/// The `i`-th row of a diagonal: a staircase of rows one pixel high, which runs from
/// the top left to the bottom right where `down` holds, else from the top right to
/// the bottom left.
pub open spec fn stair(cell: PixelRect, t: int, down: bool, i: int) -> PixelRect {
    let part = if down {
        2 * i + 1
    } else {
        2 * cell.h - (2 * i + 1)
    };
    PixelRect {
        x: rounded(2 * cell.h * cell.x + part * (cell.w - t), 2 * cell.h) as i64,
        y: (cell.y + i) as i64,
        w: t as i64,
        h: 1,
    }
}

/// The rows of a diagonal.
pub open spec fn stairs(cell: PixelRect, t: int, down: bool) -> Seq<PixelRect> {
    Seq::new(cell.h as nat, |i: int| stair(cell, t, down, i))
}

/// The rectangles of a box-drawing character.
pub open spec fn box_rects(cp: int, cell: PixelRect) -> Seq<PixelRect> {
    let h = cell.h as int;
    let light = light_of(h);
    let arms = box_table::arms_of(cp);
    if 0x2571 <= cp <= 0x2573 {
        (if cp != 0x2571 {
            stairs(cell, light, true)
        } else {
            seq![]
        }) + (if cp != 0x2572 {
            stairs(cell, light, false)
        } else {
            seq![]
        })
    } else {
        match box_table::dashes_of(cp) {
            Some(count) => {
                let t = thickness(arms[RIGHT as int].heavier(arms[UP as int]), h);
                if arms[RIGHT as int] != Stroke::Absent {
                    dash_rects(
                        count,
                        cell.x as int,
                        cell.w as int,
                        (centered(cell.y as int, h, t), t),
                        true,
                        count,
                    )
                } else {
                    dash_rects(
                        count,
                        cell.y as int,
                        h,
                        (centered(cell.x as int, cell.w as int, t), t),
                        false,
                        count,
                    )
                }
            },
            None => solid_rects(arms, cell),
        }
    }
}

spec fn ints(spans: Seq<(i64, i64)>) -> Seq<(int, int)> {
    Seq::new(spans.len(), |i: int| (spans[i].0 as int, spans[i].1 as int))
}

spec fn pieces(runs: Seq<(int, int)>, across: (int, int), horizontal: bool) -> Seq<PixelRect> {
    Seq::new(runs.len(), |i: int| piece(runs[i], across, horizontal))
}

/// A coordinate near a cell.
spec fn near(v: i64) -> bool {
    -0x2_0000_0000_0000 <= v <= 0x2_0000_0000_0000
}

proof fn lemma_light(h: int)
    requires
        1 <= h,
    ensures
        1 <= light_of(h) <= h,
        1 <= heavy_of(h) <= h,
        light_of(h) <= heavy_of(h),
{
    lemma_rounded_between(h, 8, 0, h);
}

proof fn lemma_centered(at: int, extent: int, t: int)
    requires
        0 <= t,
        1 <= extent,
    ensures
        t <= extent ==> at <= centered(at, extent, t) && centered(at, extent, t) + t <= at + extent,
        extent <= t ==> at + extent - t <= centered(at, extent, t) <= at,
{
    if t <= extent {
        lemma_rounded_between(extent - t, 2, 0, extent - t);
    } else {
        lemma_rounded_between(extent - t, 2, extent - t, 0);
    }
}

fn light_px(h: i64) -> (t: i64)
    requires
        1 <= h <= MAX_SIDE,
    ensures
        t == light_of(h as int),
        1 <= t <= h,
{
    proof {
        lemma_rounded_between(h as int, 8, 0, h as int);
    }
    let t: i64 = round_div(h as i128, 8) as i64;
    if t > 1 {
        t
    } else {
        1
    }
}

fn thick(stroke: Stroke, h: i64) -> (t: i64)
    requires
        1 <= h <= MAX_SIDE,
    ensures
        t == thickness(stroke, h as int),
        0 <= t <= h,
{
    let light: i64 = light_px(h);
    match stroke {
        Stroke::Absent => 0,
        Stroke::Heavy => if 2 * light < h {
            2 * light
        } else {
            h
        },
        _ => light,
    }
}

fn center(at: i64, extent: i64, t: i64) -> (edge: i64)
    requires
        -MAX_OFFSET <= at <= MAX_OFFSET,
        1 <= extent <= MAX_SIDE,
        0 <= t <= MAX_SIDE,
    ensures
        edge == centered(at as int, extent as int, t as int),
        at - MAX_SIDE <= edge <= at + MAX_SIDE,
{
    proof {
        lemma_centered(at as int, extent as int, t as int);
    }
    at + round_div(extent as i128 - t as i128, 2) as i64
}

/// Appends one piece of a rail.
fn push_span(start: i64, end: i64, across: (i64, i64), horizontal: bool, out: &mut Vec<PixelRect>)
    requires
        near(start),
        near(end),
    ensures
        final(out)@ == old(out)@.push(
            piece((start as int, end as int), (across.0 as int, across.1 as int), horizontal),
        ),
{
    if horizontal {
        out.push(PixelRect { x: start, y: across.0, w: end - start, h: across.1 });
    } else {
        out.push(PixelRect { x: across.0, y: start, w: across.1, h: end - start });
    }
}

/// Appends one rail: ascending spans along its length, merged where they touch, at
/// a fixed offset and thickness across it. Empty spans are the absent ones.
fn emit_rail(spans: &[(i64, i64)], across: (i64, i64), horizontal: bool, out: &mut Vec<PixelRect>)
    requires
        forall|i: int| 0 <= i < spans@.len() ==> near((#[trigger] spans@[i]).0) && near(spans@[i].1),
    ensures
        final(out)@ == old(out)@ + rail(
            ints(spans@),
            (across.0 as int, across.1 as int),
            horizontal,
        ),
{
    let ghost all = ints(spans@);
    let ghost over = (across.0 as int, across.1 as int);
    let mut current: Option<(i64, i64)> = None;
    let mut i: usize = 0;
    let ghost mut open: Option<(int, int)> = None;
    assert(all.skip(0) =~= all);
    while i < spans.len()
        invariant
            i <= spans@.len(),
            all == ints(spans@),
            over == (across.0 as int, across.1 as int),
            forall|k: int| 0 <= k < spans@.len() ==> near((#[trigger] spans@[k]).0) && near(spans@[k].1),
            current matches Some(c) ==> near(c.0) && near(c.1),
            open == (match current {
                Some(c) => Some((c.0 as int, c.1 as int)),
                None => None,
            }),
            out@ + pieces(joined(all.skip(i as int), open), over, horizontal) == old(out)@ + rail(
                all,
                over,
                horizontal,
            ),
        decreases spans@.len() - i,
    {
        let (start, end) = spans[i];
        let ghost before = joined(all.skip(i as int), open);
        let ghost out_before = out@;
        assert(all.skip(i as int).drop_first() =~= all.skip(i + 1));
        assert(all.skip(i as int)[0] == (start as int, end as int));
        if start < end {
            match current {
                Some((s, e)) => {
                    if start <= e {
                        let far: i64 = if end > e {
                            end
                        } else {
                            e
                        };
                        current = Some((s, far));
                        proof {
                            open = Some((s as int, far as int));
                        }
                    } else {
                        push_span(s, e, across, horizontal, out);
                        current = Some((start, end));
                        proof {
                            open = Some((start as int, end as int));
                            let after = joined(all.skip(i + 1), open);
                            assert(before == seq![(s as int, e as int)] + after);
                            assert(pieces(before, over, horizontal) =~= seq![
                                piece((s as int, e as int), over, horizontal),
                            ] + pieces(after, over, horizontal));
                            assert(out@ + pieces(after, over, horizontal) =~= out_before + pieces(
                                before,
                                over,
                                horizontal,
                            ));
                        }
                    }
                },
                None => {
                    current = Some((start, end));
                    proof {
                        open = Some((start as int, end as int));
                    }
                },
            }
        }
        i = i + 1;
    }
    proof {
        assert(all.skip(i as int) =~= seq![]);
        match open {
            Some(span) => {
                assert(pieces(seq![span], over, horizontal) =~= seq![
                    piece(span, over, horizontal),
                ]);
            },
            None => {
                assert(pieces(seq![], over, horizontal) =~= seq![]);
                assert(out@ + Seq::<PixelRect>::empty() =~= out@);
            },
        }
    }
    if let Some((s, e)) = current {
        push_span(s, e, across, horizontal, out);
    }
    assert(out@ =~= old(out)@ + rail(all, over, horizontal));
}

/// Appends one plain arm.
fn emit_arm(dir: usize, stroke: Stroke, cell: PixelRect, out: &mut Vec<PixelRect>)
    requires
        cell.is_cell(),
        dir < 4,
    ensures
        final(out)@ == old(out)@ + plain_arm(dir as int, stroke, cell),
{
    proof {
        reveal(plain_arm);
    }
    if stroke == Stroke::Absent {
        assert(old(out)@ + plain_arm(dir as int, stroke, cell) =~= old(out)@);
        return;
    }
    let t: i64 = thick(stroke, cell.h);
    let cx: i64 = center(cell.x, cell.w, t);
    let cy: i64 = center(cell.y, cell.h, t);
    if dir == UP {
        let spans: [(i64, i64); 1] = [(cell.y, cy + t)];
        assert(ints(spans@) =~= seq![(cell.y as int, cy + t)]);
        emit_rail(&spans, (cx, t), false, out);
    } else if dir == DOWN {
        let spans: [(i64, i64); 1] = [(cy, cell.y + cell.h)];
        assert(ints(spans@) =~= seq![(cy as int, cell.y + cell.h)]);
        emit_rail(&spans, (cx, t), false, out);
    } else if dir == LEFT {
        let spans: [(i64, i64); 1] = [(cell.x, cx + t)];
        assert(ints(spans@) =~= seq![(cell.x as int, cx + t)]);
        emit_rail(&spans, (cy, t), true, out);
    } else {
        let spans: [(i64, i64); 1] = [(cx, cell.x + cell.w)];
        assert(ints(spans@) =~= seq![(cx as int, cell.x + cell.w)]);
        emit_rail(&spans, (cy, t), true, out);
    }
}

/// Appends what a character without doubles draws for an arm.
fn emit_single(arms: [Stroke; 4], dir: usize, cell: PixelRect, out: &mut Vec<PixelRect>)
    requires
        cell.is_cell(),
        dir < 4,
    ensures
        final(out)@ == old(out)@ + single_arm(arms@, dir as int, cell),
{
    let own: Stroke = arms[dir];
    let other: Stroke = arms[(dir + 2) % 4];
    if own == Stroke::Absent || other == Stroke::Absent || own == other {
        emit_arm(dir, own, cell, out);
        return;
    }
    proof {
        reveal(shared_bar);
    }
    if dir == UP {
        let t: i64 = thick(arms[UP].max_stroke(arms[DOWN]), cell.h);
        let spans: [(i64, i64); 1] = [(cell.y, cell.y + cell.h)];
        assert(ints(spans@) =~= seq![(cell.y as int, cell.y + cell.h)]);
        emit_rail(&spans, (center(cell.x, cell.w, t), t), false, out);
    } else if dir == RIGHT {
        let t: i64 = thick(arms[LEFT].max_stroke(arms[RIGHT]), cell.h);
        let spans: [(i64, i64); 1] = [(cell.x, cell.x + cell.w)];
        assert(ints(spans@) =~= seq![(cell.x as int, cell.x + cell.w)]);
        emit_rail(&spans, (center(cell.y, cell.h, t), t), true, out);
    } else {
        assert(old(out)@ + single_arm(arms@, dir as int, cell) =~= old(out)@);
    }
}

/// Appends the two opposite arms of a junction with doubles in it, along one axis.
fn emit_axis(
    before: Stroke,
    after: Stroke,
    along: (i64, i64),
    across: (i64, i64),
    crossed: (bool, bool),
    h: i64,
    horizontal: bool,
    out: &mut Vec<PixelRect>,
)
    requires
        -MAX_OFFSET <= along.0 <= MAX_OFFSET,
        -MAX_OFFSET <= across.0 <= MAX_OFFSET,
        1 <= along.1 <= MAX_SIDE,
        1 <= across.1 <= MAX_SIDE,
        1 <= h <= MAX_SIDE,
    ensures
        final(out)@ == old(out)@ + junction_axis(
            before,
            after,
            (along.0 as int, along.1 as int),
            (across.0 as int, across.1 as int),
            crossed,
            h as int,
            horizontal,
        ),
{
    proof {
        reveal(junction_axis);
    }
    let light: i64 = light_px(h);
    let (at, extent) = along;
    let mid: i64 = center(at, extent, light);
    let middle_line: i64 = center(across.0, across.1, light);
    if before == Stroke::Double || after == Stroke::Double {
        let first: (i64, i64) = if before != Stroke::Absent {
            (at, mid)
        } else {
            (0, 0)
        };
        let last: (i64, i64) = if after != Stroke::Absent {
            (mid + light, at + extent)
        } else {
            (0, 0)
        };
        let middle: (i64, i64) = (mid - light, mid + 2 * light);
        let near_middle: (i64, i64) = if crossed.0 {
            (0, 0)
        } else {
            middle
        };
        let far_middle: (i64, i64) = if crossed.1 {
            (0, 0)
        } else {
            middle
        };
        let near_spans: [(i64, i64); 3] = [first, near_middle, last];
        let far_spans: [(i64, i64); 3] = [first, far_middle, last];
        let ghost wide_first = span_if(before != Stroke::Absent, (at as int, mid as int));
        let ghost wide_last = span_if(after != Stroke::Absent, (mid + light, at + extent));
        let ghost wide_middle = (mid - light, mid + 2 * light);
        assert(ints(near_spans@) =~= seq![
            wide_first,
            span_if(!crossed.0, wide_middle),
            wide_last,
        ]);
        assert(ints(far_spans@) =~= seq![wide_first, span_if(!crossed.1, wide_middle), wide_last]);
        emit_rail(&near_spans, (middle_line - light, light), horizontal, out);
        let ghost half = out@;
        emit_rail(&far_spans, (middle_line + light, light), horizontal, out);
        assert(out@ =~= old(out)@ + junction_axis(
            before,
            after,
            (along.0 as int, along.1 as int),
            (across.0 as int, across.1 as int),
            crossed,
            h as int,
            horizontal,
        ));
    } else if before != Stroke::Absent || after != Stroke::Absent {
        let t: i64 = thick(before.max_stroke(after), h);
        let start: i64 = if before != Stroke::Absent {
            at
        } else {
            mid + light
        };
        let end: i64 = if after != Stroke::Absent {
            at + extent
        } else {
            mid
        };
        let spans: [(i64, i64); 1] = [(start, end)];
        assert(ints(spans@) =~= seq![(start as int, end as int)]);
        emit_rail(&spans, (center(across.0, across.1, t), t), horizontal, out);
    } else {
        assert(out@ =~= old(out)@ + Seq::<PixelRect>::empty());
    }
}

proof fn lemma_dash(count: int, start: int, len: int, i: int)
    requires
        2 <= count <= 4,
        1 <= len,
        0 <= i < count,
    ensures
        1 <= dash_gap(count, len) <= len,
        start <= dash_span(count, start, len, i).0 <= start + len,
        start - len <= dash_span(count, start, len, i).1 < start + len,
{
    assert(len <= len * (3 * count)) by (nonlinear_arith)
        requires
            1 <= len,
            2 <= count,
    ;
    lemma_rounded_between(len, 3 * count, 0, len);
    let gap = dash_gap(count, len);
    assert(start * count <= start * count + i * len <= (start + len) * count) by (nonlinear_arith)
        requires
            0 <= i < count,
            1 <= len,
    ;
    lemma_rounded_between(start * count + i * len, count, start, start + len);
    let n = start * count + (i + 1) * len - gap * count;
    assert((start - len) * count <= n <= (start + len - 1) * count) by (nonlinear_arith)
        requires
            0 <= i < count,
            1 <= gap <= len,
            1 <= len,
            n == start * count + (i + 1) * len - gap * count,
    ;
    lemma_rounded_between(n, count, start - len, start + len - 1);
}

/// Appends a dashed bar: `count` dashes evenly spaced along `len`, each a third of
/// its step short of the next.
fn dashes(
    count: usize,
    start: i64,
    len: i64,
    across: (i64, i64),
    horizontal: bool,
    out: &mut Vec<PixelRect>,
)
    requires
        2 <= count <= 4,
        -MAX_OFFSET <= start <= MAX_OFFSET,
        1 <= len <= MAX_SIDE,
    ensures
        final(out)@ == old(out)@ + dash_rects(
            count as int,
            start as int,
            len as int,
            (across.0 as int, across.1 as int),
            horizontal,
            count as int,
        ),
{
    let n: i128 = count as i128;
    proof {
        lemma_dash(count as int, start as int, len as int, 0);
        assert(len <= len * (3 * count)) by (nonlinear_arith)
            requires
                1 <= len,
                2 <= count,
        ;
        lemma_rounded_between(len as int, 3 * count, 0, len as int);
    }
    let third: i64 = round_div(len as i128, 3 * n) as i64;
    let gap: i64 = if third > 1 {
        third
    } else {
        1
    };
    let ghost over = (across.0 as int, across.1 as int);
    assert(out@ =~= old(out)@ + dash_rects(
        count as int,
        start as int,
        len as int,
        over,
        horizontal,
        0,
    ));
    let mut i: usize = 0;
    while i < count
        invariant
            i <= count,
            2 <= count <= 4,
            n == count,
            -MAX_OFFSET <= start <= MAX_OFFSET,
            1 <= len <= MAX_SIDE,
            1 <= gap <= len,
            gap == dash_gap(count as int, len as int),
            over == (across.0 as int, across.1 as int),
            out@ == old(out)@ + dash_rects(
                count as int,
                start as int,
                len as int,
                over,
                horizontal,
                i as int,
            ),
        decreases count - i,
    {
        proof {
            lemma_dash(count as int, start as int, len as int, i as int);
            let span = dash_span(count as int, start as int, len as int, i as int);
            assert(-0x1_0000_0000_0000_0000 <= start * n <= 0x1_0000_0000_0000_0000)
                by (nonlinear_arith)
                requires
                    2 <= n <= 4,
                    -MAX_OFFSET <= start <= MAX_OFFSET,
            ;
            assert(0 <= i * len <= (i + 1) * len <= 0x1_0000_0000_0000_0000) by (nonlinear_arith)
                requires
                    0 <= i < 4,
                    1 <= len <= MAX_SIDE,
            ;
            assert(0 <= gap * n <= 0x1_0000_0000_0000_0000) by (nonlinear_arith)
                requires
                    2 <= n <= 4,
                    1 <= gap <= MAX_SIDE,
            ;
        }
        let a: i64 = round_div(start as i128 * n + i as i128 * len as i128, n) as i64;
        let b: i64 = round_div(
            start as i128 * n + (i as i128 + 1) * len as i128 - gap as i128 * n,
            n,
        ) as i64;
        let ghost before = out@;
        if b > a {
            push_span(a, b, across, horizontal, out);
        }
        i = i + 1;
        assert(out@ =~= old(out)@ + dash_rects(
            count as int,
            start as int,
            len as int,
            over,
            horizontal,
            i as int,
        ));
    }
}

proof fn lemma_stair(cell: PixelRect, t: int, down: bool, i: int)
    requires
        cell.is_cell(),
        1 <= t <= MAX_SIDE,
        0 <= i < cell.h,
    ensures
        ({
            let part = if down {
                2 * i + 1
            } else {
                2 * cell.h - (2 * i + 1)
            };
            let x = rounded(2 * cell.h * cell.x + part * (cell.w - t), 2 * cell.h);
            &&& 0 < part < 2 * cell.h
            &&& t <= cell.w ==> cell.x <= x && x + t <= cell.x + cell.w
            &&& cell.x - MAX_SIDE <= x <= cell.x + MAX_SIDE
        }),
{
    let part = if down {
        2 * i + 1
    } else {
        2 * cell.h - (2 * i + 1)
    };
    let d = 2 * cell.h;
    let room = cell.w - t;
    let n = d * cell.x + part * room;
    if t <= cell.w {
        assert(cell.x * d <= n <= (cell.x + room) * d) by (nonlinear_arith)
            requires
                n == d * cell.x + part * room,
                0 < part < d,
                0 <= room,
        ;
        lemma_rounded_between(n, d, cell.x as int, cell.x + room);
    } else {
        assert((cell.x + room) * d <= n <= cell.x * d) by (nonlinear_arith)
            requires
                n == d * cell.x + part * room,
                0 < part < d,
                room <= 0,
        ;
        lemma_rounded_between(n, d, cell.x + room, cell.x as int);
    }
}

/// Appends a diagonal, as a staircase of rows one pixel high: rectangles are the
/// only primitive here, and at cell sizes the stair is what a hinted font draws
/// anyway.
fn diagonal(cell: PixelRect, t: i64, down: bool, out: &mut Vec<PixelRect>)
    requires
        cell.is_cell(),
        1 <= t <= MAX_SIDE,
    ensures
        final(out)@ == old(out)@ + stairs(cell, t as int, down),
{
    let mut i: i64 = 0;
    assert(out@ =~= old(out)@ + stairs(cell, t as int, down).take(0));
    while i < cell.h
        invariant
            0 <= i <= cell.h,
            cell.is_cell(),
            1 <= t <= MAX_SIDE,
            out@ == old(out)@ + stairs(cell, t as int, down).take(i as int),
        decreases cell.h - i,
    {
        proof {
            lemma_stair(cell, t as int, down, i as int);
        }
        let part: i128 = if down {
            2 * i as i128 + 1
        } else {
            2 * cell.h as i128 - (2 * i as i128 + 1)
        };
        let d: i128 = 2 * cell.h as i128;
        let room: i128 = cell.w as i128 - t as i128;
        proof {
            assert(-0x10_0000_0000_0000_0000_0000 <= d * cell.x <= 0x10_0000_0000_0000_0000_0000)
                by (nonlinear_arith)
                requires
                    0 < d <= 2 * MAX_SIDE,
                    -MAX_OFFSET <= cell.x <= MAX_OFFSET,
            ;
            assert(-0x1_0000_0000_0000_0000_0000 <= part * room <= 0x1_0000_0000_0000_0000_0000)
                by (nonlinear_arith)
                requires
                    0 < part <= 2 * MAX_SIDE,
                    -MAX_SIDE <= room <= MAX_SIDE,
            ;
        }
        let x: i64 = round_div(d * cell.x as i128 + part * room, d) as i64;
        let ghost before = out@;
        out.push(PixelRect { x, y: cell.y + i, w: t, h: 1 });
        proof {
            let rows = stairs(cell, t as int, down);
            assert(out@.last() == rows[i as int]);
            assert(rows.take(i + 1) =~= rows.take(i as int).push(rows[i as int]));
            assert(out@ =~= old(out)@ + rows.take(i + 1));
        }
        i = i + 1;
    }
    assert(stairs(cell, t as int, down).take(i as int) =~= stairs(cell, t as int, down));
}

proof fn lemma_append_two(a: Seq<PixelRect>, b: Seq<PixelRect>, c: Seq<PixelRect>)
    ensures
        a + b + c == a + (b + c),
{
    assert(a + b + c =~= a + (b + c));
}

proof fn lemma_append_four(
    a: Seq<PixelRect>,
    b: Seq<PixelRect>,
    c: Seq<PixelRect>,
    d: Seq<PixelRect>,
    e: Seq<PixelRect>,
)
    ensures
        a + b + c + d + e == a + (b + c + d + e),
{
    assert(a + b + c + d + e =~= a + (b + c + d + e));
}

/// Appends solid arms.
fn solid(arms: [Stroke; 4], cell: PixelRect, out: &mut Vec<PixelRect>)
    requires
        cell.is_cell(),
    ensures
        final(out)@ == old(out)@ + solid_rects(arms@, cell),
{
    let horiz_double: bool = arms[RIGHT] == Stroke::Double || arms[LEFT] == Stroke::Double;
    let vert_double: bool = arms[UP] == Stroke::Double || arms[DOWN] == Stroke::Double;
    if !horiz_double && !vert_double {
        // Every arm runs from its own centered offset to the cell edge, so arms still
        // overlap in the middle and corners close. Opposite arms of different weights are
        // one bar.
        emit_single(arms, UP, cell, out);
        emit_single(arms, RIGHT, cell, out);
        emit_single(arms, DOWN, cell, out);
        emit_single(arms, LEFT, cell, out);
        proof {
            lemma_append_four(
                old(out)@,
                single_arm(arms@, 0, cell),
                single_arm(arms@, 1, cell),
                single_arm(arms@, 2, cell),
                single_arm(arms@, 3, cell),
            );
        }
        return;
    }
    let ghost down_axis = junction_axis(
        arms@[0],
        arms@[2],
        (cell.y as int, cell.h as int),
        (cell.x as int, cell.w as int),
        (arms@[3] == Stroke::Double, arms@[1] == Stroke::Double),
        cell.h as int,
        false,
    );
    emit_axis(
        arms[UP],
        arms[DOWN],
        (cell.y, cell.h),
        (cell.x, cell.w),
        (arms[LEFT] == Stroke::Double, arms[RIGHT] == Stroke::Double),
        cell.h,
        false,
        out,
    );
    emit_axis(
        arms[LEFT],
        arms[RIGHT],
        (cell.x, cell.w),
        (cell.y, cell.h),
        (arms[UP] == Stroke::Double, arms[DOWN] == Stroke::Double),
        cell.h,
        true,
        out,
    );
    proof {
        lemma_append_two(old(out)@, down_axis, junction_axis(
            arms@[3],
            arms@[1],
            (cell.x as int, cell.w as int),
            (cell.y as int, cell.h as int),
            (arms@[0] == Stroke::Double, arms@[2] == Stroke::Double),
            cell.h as int,
            true,
        ));
    }
}

/// Appends the geometry of a box-drawing character, U+2500 to U+257F.
pub fn box_drawing(cp: u32, cell: PixelRect, out: &mut Vec<PixelRect>)
    requires
        0x2500 <= cp <= 0x257F,
        cell.is_cell(),
    ensures
        final(out)@ == old(out)@ + box_rects(cp as int, cell),
{
    let light: i64 = light_px(cell.h);
    if 0x2571 <= cp && cp <= 0x2573 {
        if cp != 0x2571 {
            diagonal(cell, light, true, out);
        }
        if cp != 0x2572 {
            diagonal(cell, light, false, out);
        }
        assert(out@ =~= old(out)@ + box_rects(cp as int, cell));
        return;
    }
    let arms: [Stroke; 4] = arms_at(cp);
    if let Some(count) = dash_count(cp) {
        let t: i64 = thick(arms[RIGHT].max_stroke(arms[UP]), cell.h);
        if arms[RIGHT] != Stroke::Absent {
            dashes(count, cell.x, cell.w, (center(cell.y, cell.h, t), t), true, out);
        } else {
            dashes(count, cell.y, cell.h, (center(cell.x, cell.w, t), t), false, out);
        }
        return;
    }
    solid(arms, cell, out);
}

/// U+2596 to U+259F as the quadrants they fill: upper left, upper right, lower left,
/// lower right.
pub const QUADRANTS: [[bool; 4]; 10] = [
    [false, false, true, false],  // 2596 lower left
    [false, false, false, true],  // 2597 lower right
    [true, false, false, false],  // 2598 upper left
    [true, false, true, true],  // 2599 upper left and lower left and lower right
    [true, false, false, true],  // 259A upper left and lower right
    [true, true, true, false],  // 259B upper left and upper right and lower left
    [true, true, false, true],  // 259C upper left and upper right and lower right
    [false, true, false, false],  // 259D upper right
    [false, true, true, false],  // 259E upper right and lower left
    [false, true, true, true],  // 259F upper right and lower left and lower right
];

/// The `i`-th quadrant of a cell: upper left, upper right, lower left, lower right.
pub open spec fn quadrant(cell: PixelRect, i: int) -> PixelRect {
    let half_w = rounded(cell.w as int, 2);
    let half_h = rounded(cell.h as int, 2);
    let right = i % 2 == 1;
    let lower = i >= 2;
    PixelRect {
        x: (if right {
            cell.x + half_w
        } else {
            cell.x as int
        }) as i64,
        y: (if lower {
            cell.y + half_h
        } else {
            cell.y as int
        }) as i64,
        w: (if right {
            cell.w - half_w
        } else {
            half_w
        }) as i64,
        h: (if lower {
            cell.h - half_h
        } else {
            half_h
        }) as i64,
    }
}

/// The first `n` quadrants of a cell that `filled` names.
pub open spec fn quadrants(cell: PixelRect, filled: Seq<bool>, n: int) -> Seq<PixelRect>
    decreases n,
{
    if n <= 0 {
        seq![]
    } else {
        let before = quadrants(cell, filled, n - 1);
        if filled[n - 1] {
            before.push(quadrant(cell, n - 1))
        } else {
            before
        }
    }
}

/// `n` eighths of a length.
pub open spec fn eighths(extent: int, n: int) -> int {
    rounded(extent * n, 8)
}

/// A part of a cell: its lowest `height` rows.
pub open spec fn bottom(cell: PixelRect, height: int) -> PixelRect {
    PixelRect { y: (cell.y + cell.h - height) as i64, h: height as i64, ..cell }
}

/// A part of a cell: its rightmost `width` columns.
pub open spec fn right_side(cell: PixelRect, width: int) -> PixelRect {
    PixelRect { x: (cell.x + cell.w - width) as i64, w: width as i64, ..cell }
}

/// The rectangles of a block element: halves, eighths, quadrants, and the whole cell
/// for the shades.
pub open spec fn block_rects(cp: int, cell: PixelRect) -> Seq<PixelRect> {
    let w = cell.w as int;
    let h = cell.h as int;
    if cp == 0x2580 {
        seq![PixelRect { h: rounded(h, 2) as i64, ..cell }]
    } else if cp == 0x2594 {
        seq![PixelRect { h: eighths(h, 1) as i64, ..cell }]
    } else if 0x2581 <= cp <= 0x2588 {
        seq![bottom(cell, eighths(h, cp - 0x2580))]
    } else if 0x2589 <= cp <= 0x258F {
        seq![PixelRect { w: eighths(w, 0x2590 - cp) as i64, ..cell }]
    } else if cp == 0x2590 {
        seq![right_side(cell, rounded(w, 2))]
    } else if cp == 0x2595 {
        seq![right_side(cell, eighths(w, 1))]
    } else if 0x2591 <= cp <= 0x2593 {
        seq![cell]
    } else if 0x2596 <= cp <= 0x259F {
        quadrants(cell, QUADRANTS[cp - 0x2596]@, 4)
    } else {
        seq![]
    }
}

fn eighth(extent: i64, n: i64) -> (part: i64)
    requires
        1 <= extent <= MAX_SIDE,
        0 <= n <= 8,
    ensures
        part == eighths(extent as int, n as int),
        0 <= part <= extent,
{
    proof {
        assert(0 <= extent * n <= extent * 8) by (nonlinear_arith)
            requires
                1 <= extent,
                0 <= n <= 8,
        ;
        lemma_rounded_between(extent * n, 8, 0, extent as int);
    }
    round_div(extent as i128 * n as i128, 8) as i64
}

fn half(extent: i64) -> (part: i64)
    requires
        1 <= extent <= MAX_SIDE,
    ensures
        part == rounded(extent as int, 2),
        0 <= part <= extent,
{
    proof {
        lemma_rounded_between(extent as int, 2, 0, extent as int);
    }
    round_div(extent as i128, 2) as i64
}

/// Appends the geometry of a block element, U+2580 to U+259F: halves, eighths,
/// quadrants and shades.
pub fn block_element(cp: u32, cell: PixelRect, out: &mut Vec<PixelRect>)
    requires
        cell.is_cell(),
    ensures
        final(out)@ == old(out)@ + block_rects(cp as int, cell),
{
    let PixelRect { x, y, w, h } = cell;
    if cp == 0x2580 {
        out.push(PixelRect { x, y, w, h: half(h) });
    } else if cp == 0x2594 {
        out.push(PixelRect { x, y, w, h: eighth(h, 1) });
    } else if 0x2581 <= cp && cp <= 0x2588 {
        // Lower eighths, up to the full block.
        let height: i64 = eighth(h, (cp - 0x2580) as i64);
        out.push(PixelRect { x, y: y + h - height, w, h: height });
    } else if 0x2589 <= cp && cp <= 0x258F {
        // Left eighths: U+2589 is seven eighths, U+258F one.
        out.push(PixelRect { x, y, w: eighth(w, (0x2590 - cp) as i64), h });
    } else if cp == 0x2590 {
        let width: i64 = half(w);
        out.push(PixelRect { x: x + w - width, y, w: width, h });
    } else if cp == 0x2595 {
        let width: i64 = eighth(w, 1);
        out.push(PixelRect { x: x + w - width, y, w: width, h });
    } else if 0x2591 <= cp && cp <= 0x2593 {
        out.push(cell);
    } else if 0x2596 <= cp && cp <= 0x259F {
        let filled: [bool; 4] = QUADRANTS[(cp - 0x2596) as usize];
        let half_w: i64 = half(w);
        let half_h: i64 = half(h);
        let quads: [PixelRect; 4] = [
            PixelRect { x, y, w: half_w, h: half_h },
            PixelRect { x: x + half_w, y, w: w - half_w, h: half_h },
            PixelRect { x, y: y + half_h, w: half_w, h: h - half_h },
            PixelRect { x: x + half_w, y: y + half_h, w: w - half_w, h: h - half_h },
        ];
        let mut i: usize = 0;
        assert(out@ =~= old(out)@ + quadrants(cell, filled@, 0));
        while i < 4
            invariant
                i <= 4,
                forall|k: int| 0 <= k < 4 ==> #[trigger] quads@[k] == quadrant(cell, k),
                out@ == old(out)@ + quadrants(cell, filled@, i as int),
            decreases 4 - i,
        {
            let ghost before = out@;
            if filled[i] {
                out.push(quads[i]);
            }
            i = i + 1;
            assert(out@ =~= old(out)@ + quadrants(cell, filled@, i as int));
        }
    } else {
        assert(out@ =~= old(out)@ + block_rects(cp as int, cell));
    }
    assert(out@ =~= old(out)@ + block_rects(cp as int, cell));
}

/// A rectangle to fill: with `color`, its alpha taken down to `quarters` fourths.
#[derive(Clone, Copy, Debug)]
pub struct SceneRect {
    pub rect: PixelRect,
    pub color: Color,
    pub quarters: u32,
}

/// Rectangles filled with one color.
pub open spec fn painted(rects: Seq<PixelRect>, color: Color, quarters: u32) -> Seq<SceneRect> {
    Seq::new(rects.len(), |i: int| SceneRect { rect: rects[i], color, quarters })
}

/// Characters drawn as rectangles rather than from font outlines.
pub open spec fn is_procedural(cp: int) -> bool {
    0x2500 <= cp <= 0x259F
}

/// The geometry of a character drawn as rectangles.
pub open spec fn procedural_rects(cp: int, cell: PixelRect) -> Seq<PixelRect> {
    if cp <= 0x257F {
        box_rects(cp, cell)
    } else {
        block_rects(cp, cell)
    }
}

/// The share of the foreground's alpha that a character is drawn at, in fourths:
/// one, two and three for the light, medium and dark shade, else all four.
pub open spec fn quarters_of(cp: int) -> int {
    if 0x2591 <= cp <= 0x2593 {
        cp - 0x2590
    } else {
        4
    }
}

/// Appends the geometry of U+2500 to U+259F. Says no to anything else, which is then a
/// glyph like any other.
pub fn push_procedural(ch: char, cell: PixelRect, color: Color, out: &mut Vec<SceneRect>) -> (drawn:
    bool)
    requires
        cell.is_cell(),
    ensures
        drawn == is_procedural(ch as int),
        drawn ==> final(out)@ == old(out)@ + painted(
            procedural_rects(ch as int, cell),
            color,
            quarters_of(ch as int) as u32,
        ),
        !drawn ==> final(out)@ == old(out)@,
{
    let cp: u32 = ch as u32;
    if cp < 0x2500 || 0x259F < cp {
        return false;
    }
    let mut shapes: Vec<PixelRect> = Vec::new();
    if cp <= 0x257F {
        box_drawing(cp, cell, &mut shapes);
    } else {
        block_element(cp, cell, &mut shapes);
    }
    let quarters: u32 = if 0x2591 <= cp && cp <= 0x2593 {
        cp - 0x2590
    } else {
        4
    };
    let ghost rects = procedural_rects(cp as int, cell);
    assert(shapes@ =~= rects);
    let mut i: usize = 0;
    assert(out@ =~= old(out)@ + painted(rects, color, quarters).take(0));
    while i < shapes.len()
        invariant
            i <= shapes@.len(),
            shapes@ == rects,
            out@ == old(out)@ + painted(rects, color, quarters).take(i as int),
        decreases shapes@.len() - i,
    {
        out.push(SceneRect { rect: shapes[i], color, quarters });
        i = i + 1;
        assert(out@ =~= old(out)@ + painted(rects, color, quarters).take(i as int));
    }
    assert(painted(rects, color, quarters).take(i as int) =~= painted(rects, color, quarters));
    true
}

/// Strokes fit: three light strokes side by side are no more than the cell.
pub open spec fn is_roomy(cell: PixelRect) -> bool {
    cell.is_cell() && 3 * light_of(cell.h as int) <= cell.w && 3 * light_of(cell.h as int) <= cell.h
}

spec fn within(runs: Seq<(int, int)>, low: int, high: int) -> bool {
    forall|i: int| 0 <= i < runs.len() ==> low <= (#[trigger] runs[i]).0 < runs[i].1 <= high
}

proof fn lemma_joined_within(
    spans: Seq<(int, int)>,
    open: Option<(int, int)>,
    low: int,
    high: int,
)
    requires
        forall|i: int|
            0 <= i < spans.len() && (#[trigger] spans[i]).0 < spans[i].1 ==> low <= spans[i].0
                && spans[i].1 <= high,
        open matches Some(span) ==> low <= span.0 < span.1 <= high,
    ensures
        within(joined(spans, open), low, high),
    decreases spans.len(),
{
    let all = joined(spans, open);
    if spans.len() > 0 {
        let next = spans[0];
        let rest = spans.drop_first();
        assert(forall|i: int| 0 <= i < rest.len() ==> #[trigger] rest[i] == spans[i + 1]);
        if next.1 <= next.0 {
            lemma_joined_within(rest, open, low, high);
            assert(all == joined(rest, open));
        } else if open is None {
            lemma_joined_within(rest, Some(next), low, high);
            assert(all == joined(rest, Some(next)));
        } else {
            let span = open->0;
            if next.0 <= span.1 {
                let far = if next.1 > span.1 {
                    next.1
                } else {
                    span.1
                };
                lemma_joined_within(rest, Some((span.0, far)), low, high);
                assert(all == joined(rest, Some((span.0, far))));
            } else {
                lemma_joined_within(rest, Some(next), low, high);
                let tail = joined(rest, Some(next));
                assert(all == seq![span] + tail);
                assert forall|i: int| 0 <= i < all.len() implies low <= (#[trigger] all[i]).0
                    < all[i].1 <= high by {
                    if i > 0 {
                        assert(all[i] == tail[i - 1]);
                    }
                }
            }
        }
    } else {
        match open {
            Some(span) => assert(all == seq![span]),
            None => assert(all == Seq::<(int, int)>::empty()),
        }
    }
}

/// Every rectangle of a list has an area and lies inside the cell.
pub open spec fn all_inside(rects: Seq<PixelRect>, cell: PixelRect) -> bool {
    forall|i: int| 0 <= i < rects.len() ==> (#[trigger] rects[i]).inside(cell)
}

proof fn lemma_rail_inside(
    spans: Seq<(int, int)>,
    across: (int, int),
    horizontal: bool,
    cell: PixelRect,
)
    requires
        cell.is_cell(),
        0 < across.1,
        horizontal ==> cell.y <= across.0 && across.0 + across.1 <= cell.y + cell.h,
        !horizontal ==> cell.x <= across.0 && across.0 + across.1 <= cell.x + cell.w,
        forall|i: int|
            0 <= i < spans.len() && (#[trigger] spans[i]).0 < spans[i].1 ==> if horizontal {
                cell.x <= spans[i].0 && spans[i].1 <= cell.x + cell.w
            } else {
                cell.y <= spans[i].0 && spans[i].1 <= cell.y + cell.h
            },
    ensures
        all_inside(rail(spans, across, horizontal), cell),
{
    if horizontal {
        lemma_joined_within(spans, None, cell.x as int, cell.x + cell.w);
    } else {
        lemma_joined_within(spans, None, cell.y as int, cell.y + cell.h);
    }
    let runs = joined(spans, None);
    assert forall|i: int| 0 <= i < rail(spans, across, horizontal).len() implies (
    #[trigger] rail(spans, across, horizontal)[i]).inside(cell) by {
        assert(runs[i].0 < runs[i].1);
    }
}

proof fn lemma_inside_append(a: Seq<PixelRect>, b: Seq<PixelRect>, cell: PixelRect)
    requires
        all_inside(a, cell),
        all_inside(b, cell),
    ensures
        all_inside(a + b, cell),
{
    assert forall|i: int| 0 <= i < (a + b).len() implies (#[trigger] (a + b)[i]).inside(cell) by {
        if i < a.len() {
            assert(a[i].inside(cell));
        } else {
            assert(b[i - a.len()].inside(cell));
        }
    }
}

proof fn lemma_plain_arm_inside(dir: int, stroke: Stroke, cell: PixelRect)
    requires
        is_roomy(cell),
        0 <= dir < 4,
    ensures
        all_inside(plain_arm(dir, stroke, cell), cell),
{
    reveal(plain_arm);
    lemma_light(cell.h as int);
    let t = thickness(stroke, cell.h as int);
    let cx = centered(cell.x as int, cell.w as int, t);
    let cy = centered(cell.y as int, cell.h as int, t);
    lemma_centered(cell.x as int, cell.w as int, t);
    lemma_centered(cell.y as int, cell.h as int, t);
    if stroke != Stroke::Absent {
        if dir == UP {
            lemma_rail_inside(seq![(cell.y as int, cy + t)], (cx, t), false, cell);
        } else if dir == DOWN {
            lemma_rail_inside(seq![(cy, cell.y + cell.h)], (cx, t), false, cell);
        } else if dir == LEFT {
            lemma_rail_inside(seq![(cell.x as int, cx + t)], (cy, t), true, cell);
        } else {
            lemma_rail_inside(seq![(cx, cell.x + cell.w)], (cy, t), true, cell);
        }
    }
}

proof fn lemma_single_arm_inside(arms: Seq<Stroke>, dir: int, cell: PixelRect)
    requires
        is_roomy(cell),
        arms.len() == 4,
        0 <= dir < 4,
    ensures
        all_inside(single_arm(arms, dir, cell), cell),
{
    reveal(shared_bar);
    lemma_plain_arm_inside(dir, arms[dir], cell);
    lemma_light(cell.h as int);
    let t = thickness(drawn_weight(arms, dir), cell.h as int);
    lemma_centered(cell.x as int, cell.w as int, t);
    lemma_centered(cell.y as int, cell.h as int, t);
    if differ(arms[dir], arms[(dir + 2) % 4]) {
        let bar = thickness(arms[(dir + 2) % 4].heavier(arms[dir]), cell.h as int);
        lemma_centered(cell.x as int, cell.w as int, bar);
        lemma_centered(cell.y as int, cell.h as int, bar);
        if dir == UP {
            lemma_rail_inside(
                seq![(cell.y as int, cell.y + cell.h)],
                (centered(cell.x as int, cell.w as int, t), t),
                false,
                cell,
            );
        } else if dir == RIGHT {
            lemma_rail_inside(
                seq![(cell.x as int, cell.x + cell.w)],
                (centered(cell.y as int, cell.h as int, bar), bar),
                true,
                cell,
            );
        }
    }
}

/// The span of a cell along an axis.
spec fn extent_along(cell: PixelRect, horizontal: bool) -> (int, int) {
    if horizontal {
        (cell.x as int, cell.w as int)
    } else {
        (cell.y as int, cell.h as int)
    }
}

proof fn lemma_rails_inside(
    before: Stroke,
    after: Stroke,
    crossed: bool,
    cell: PixelRect,
    horizontal: bool,
    over: int,
)
    requires
        is_roomy(cell),
        extent_along(cell, !horizontal).0 <= over,
        over + light_of(cell.h as int) <= extent_along(cell, !horizontal).0 + extent_along(
            cell,
            !horizontal,
        ).1,
    ensures
        ({
            let light = light_of(cell.h as int);
            let (at, extent) = extent_along(cell, horizontal);
            let mid = centered(at, extent, light);
            all_inside(
                rail(
                    seq![
                        span_if(before != Stroke::Absent, (at, mid)),
                        span_if(!crossed, (mid - light, mid + 2 * light)),
                        span_if(after != Stroke::Absent, (mid + light, at + extent)),
                    ],
                    (over, light),
                    horizontal,
                ),
                cell,
            )
        }),
{
    let light = light_of(cell.h as int);
    let (at, extent) = extent_along(cell, horizontal);
    let mid = centered(at, extent, light);
    lemma_light(cell.h as int);
    lemma_rounded_between(extent - light, 2, light, extent - 2 * light);
    let spans = seq![
        span_if(before != Stroke::Absent, (at, mid)),
        span_if(!crossed, (mid - light, mid + 2 * light)),
        span_if(after != Stroke::Absent, (mid + light, at + extent)),
    ];
    lemma_rail_inside(spans, (over, light), horizontal, cell);
}

proof fn lemma_junction_inside(
    before: Stroke,
    after: Stroke,
    crossed: (bool, bool),
    cell: PixelRect,
    horizontal: bool,
)
    requires
        is_roomy(cell),
    ensures
        all_inside(
            junction_axis(
                before,
                after,
                extent_along(cell, horizontal),
                extent_along(cell, !horizontal),
                crossed,
                cell.h as int,
                horizontal,
            ),
            cell,
        ),
{
    reveal(junction_axis);
    let h = cell.h as int;
    let light = light_of(h);
    let (at, extent) = extent_along(cell, horizontal);
    let (over, breadth) = extent_along(cell, !horizontal);
    lemma_light(h);
    lemma_rounded_between(extent - light, 2, light, extent - 2 * light);
    lemma_rounded_between(breadth - light, 2, light, breadth - 2 * light);
    let mid = centered(at, extent, light);
    let center = centered(over, breadth, light);
    if before == Stroke::Double || after == Stroke::Double {
        lemma_rails_inside(before, after, crossed.0, cell, horizontal, center - light);
        lemma_rails_inside(before, after, crossed.1, cell, horizontal, center + light);
        let first = span_if(before != Stroke::Absent, (at, mid));
        let last = span_if(after != Stroke::Absent, (mid + light, at + extent));
        let middle = (mid - light, mid + 2 * light);
        lemma_inside_append(
            rail(
                seq![first, span_if(!crossed.0, middle), last],
                (center - light, light),
                horizontal,
            ),
            rail(
                seq![first, span_if(!crossed.1, middle), last],
                (center + light, light),
                horizontal,
            ),
            cell,
        );
    } else if before != Stroke::Absent || after != Stroke::Absent {
        let t = thickness(before.heavier(after), h);
        lemma_centered(over, breadth, t);
        let start = if before != Stroke::Absent {
            at
        } else {
            mid + light
        };
        let end = if after != Stroke::Absent {
            at + extent
        } else {
            mid
        };
        lemma_rail_inside(seq![(start, end)], (centered(over, breadth, t), t), horizontal, cell);
    }
}

proof fn lemma_solid_inside(arms: Seq<Stroke>, cell: PixelRect)
    requires
        is_roomy(cell),
        arms.len() == 4,
    ensures
        all_inside(solid_rects(arms, cell), cell),
{
    if !has_double(arms) {
        lemma_single_arm_inside(arms, 0, cell);
        lemma_single_arm_inside(arms, 1, cell);
        lemma_single_arm_inside(arms, 2, cell);
        lemma_single_arm_inside(arms, 3, cell);
        let a = single_arm(arms, 0, cell) + single_arm(arms, 1, cell);
        lemma_inside_append(single_arm(arms, 0, cell), single_arm(arms, 1, cell), cell);
        lemma_inside_append(a, single_arm(arms, 2, cell), cell);
        lemma_inside_append(a + single_arm(arms, 2, cell), single_arm(arms, 3, cell), cell);
    } else {
        let down = (arms[3] == Stroke::Double, arms[1] == Stroke::Double);
        let over = (arms[0] == Stroke::Double, arms[2] == Stroke::Double);
        lemma_junction_inside(arms[0], arms[2], down, cell, false);
        lemma_junction_inside(arms[3], arms[1], over, cell, true);
        lemma_inside_append(
            junction_axis(
                arms[0],
                arms[2],
                extent_along(cell, false),
                extent_along(cell, true),
                down,
                cell.h as int,
                false,
            ),
            junction_axis(
                arms[3],
                arms[1],
                extent_along(cell, true),
                extent_along(cell, false),
                over,
                cell.h as int,
                true,
            ),
            cell,
        );
    }
}

proof fn lemma_dashes_inside(
    count: int,
    cell: PixelRect,
    across: (int, int),
    horizontal: bool,
    n: int,
)
    requires
        cell.is_cell(),
        2 <= count <= 4,
        0 <= n <= count,
        0 < across.1,
        horizontal ==> cell.y <= across.0 && across.0 + across.1 <= cell.y + cell.h,
        !horizontal ==> cell.x <= across.0 && across.0 + across.1 <= cell.x + cell.w,
    ensures
        all_inside(
            dash_rects(
                count,
                extent_along(cell, horizontal).0,
                extent_along(cell, horizontal).1,
                across,
                horizontal,
                n,
            ),
            cell,
        ),
    decreases n,
{
    if n > 0 {
        let (start, len) = extent_along(cell, horizontal);
        lemma_dashes_inside(count, cell, across, horizontal, n - 1);
        lemma_dash(count, start, len, n - 1);
        let span = dash_span(count, start, len, n - 1);
        if span.1 > span.0 {
            let before = dash_rects(count, start, len, across, horizontal, n - 1);
            let last = piece(span, across, horizontal);
            assert(last.inside(cell));
            assert forall|i: int| 0 <= i < before.push(last).len() implies (
            #[trigger] before.push(last)[i]).inside(cell) by {
                if i < before.len() {
                    assert(before[i].inside(cell));
                }
            }
        }
    }
}

/// Every box-drawing rectangle has an area and stays inside its cell, in a cell with
/// room for its strokes.
pub proof fn lemma_box_inside(cp: int, cell: PixelRect)
    requires
        0x2500 <= cp <= 0x257F,
        is_roomy(cell),
    ensures
        all_inside(box_rects(cp, cell), cell),
{
    let h = cell.h as int;
    let light = light_of(h);
    lemma_light(h);
    let arms = box_table::arms_of(cp);
    if 0x2571 <= cp <= 0x2573 {
        assert forall|down: bool, i: int| 0 <= i < cell.h implies (#[trigger] stair(
            cell,
            light,
            down,
            i,
        )).inside(cell) by {
            lemma_stair(cell, light, down, i);
        }
        let a = if cp != 0x2571 {
            stairs(cell, light, true)
        } else {
            seq![]
        };
        let b = if cp != 0x2572 {
            stairs(cell, light, false)
        } else {
            seq![]
        };
        assert(all_inside(a, cell));
        assert(all_inside(b, cell));
        lemma_inside_append(a, b, cell);
    } else if box_table::dashes_of(cp) is Some {
        let count = box_table::dashes_of(cp)->0;
        let t = thickness(arms[RIGHT as int].heavier(arms[UP as int]), h);
        box_table::lemma_dashed_arms(cp);
        lemma_centered(cell.x as int, cell.w as int, t);
        lemma_centered(cell.y as int, h, t);
        if arms[RIGHT as int] != Stroke::Absent {
            lemma_dashes_inside(count, cell, (centered(cell.y as int, h, t), t), true, count);
        } else {
            lemma_dashes_inside(
                count,
                cell,
                (centered(cell.x as int, cell.w as int, t), t),
                false,
                count,
            );
        }
    } else {
        box_table::lemma_arms_len(cp);
        lemma_solid_inside(arms, cell);
    }
}

/// A bar of thickness `t` at offset `at` meets the right edge of the cell.
pub open spec fn meets_right(rects: Seq<PixelRect>, cell: PixelRect, at: int, t: int) -> bool {
    exists|i: int|
        0 <= i < rects.len() && (#[trigger] rects[i]).x + rects[i].w == cell.x + cell.w
            && rects[i].y == at && rects[i].h == t
}

/// A bar of thickness `t` at offset `at` meets the left edge of the cell.
pub open spec fn meets_left(rects: Seq<PixelRect>, cell: PixelRect, at: int, t: int) -> bool {
    exists|i: int|
        0 <= i < rects.len() && (#[trigger] rects[i]).x == cell.x && rects[i].y == at && rects[i].h
            == t
}

/// A bar of thickness `t` at offset `at` meets the bottom edge of the cell.
pub open spec fn meets_bottom(rects: Seq<PixelRect>, cell: PixelRect, at: int, t: int) -> bool {
    exists|i: int|
        0 <= i < rects.len() && (#[trigger] rects[i]).y + rects[i].h == cell.y + cell.h
            && rects[i].x == at && rects[i].w == t
}

/// A bar of thickness `t` at offset `at` meets the top edge of the cell.
pub open spec fn meets_top(rects: Seq<PixelRect>, cell: PixelRect, at: int, t: int) -> bool {
    exists|i: int|
        0 <= i < rects.len() && (#[trigger] rects[i]).y == cell.y && rects[i].x == at && rects[i].w
            == t
}

proof fn lemma_single_rail(span: (int, int), across: (int, int), horizontal: bool)
    requires
        span.0 < span.1,
    ensures
        rail(seq![span], across, horizontal) == seq![piece(span, across, horizontal)],
{
    reveal_with_fuel(joined, 3);
    assert(seq![span].drop_first() =~= seq![]);
    assert(joined(seq![span], None) =~= seq![span]);
    assert(rail(seq![span], across, horizontal) =~= seq![piece(span, across, horizontal)]);
}

proof fn lemma_plain_arm_edge(dir: int, stroke: Stroke, cell: PixelRect)
    requires
        is_roomy(cell),
        0 <= dir < 4,
        stroke != Stroke::Absent,
    ensures
        ({
            let t = thickness(stroke, cell.h as int);
            let cx = centered(cell.x as int, cell.w as int, t);
            let cy = centered(cell.y as int, cell.h as int, t);
            let arm = plain_arm(dir, stroke, cell);
            &&& arm.len() == 1
            &&& dir == UP ==> arm[0].y == cell.y && arm[0].x == cx && arm[0].w == t
            &&& dir == DOWN ==> arm[0].y + arm[0].h == cell.y + cell.h && arm[0].x == cx && arm[0].w
                == t
            &&& dir == LEFT ==> arm[0].x == cell.x && arm[0].y == cy && arm[0].h == t
            &&& dir == RIGHT ==> arm[0].x + arm[0].w == cell.x + cell.w && arm[0].y == cy
                && arm[0].h == t
        }),
{
    reveal(plain_arm);
    let h = cell.h as int;
    let (x, y, w) = (cell.x as int, cell.y as int, cell.w as int);
    let t = thickness(stroke, h);
    lemma_light(h);
    lemma_centered(x, w, t);
    lemma_centered(y, h, t);
    if dir == UP {
        lemma_single_rail((y, centered(y, h, t) + t), (centered(x, w, t), t), false);
    } else if dir == DOWN {
        lemma_single_rail((centered(y, h, t), y + h), (centered(x, w, t), t), false);
    } else if dir == LEFT {
        lemma_single_rail((x, centered(x, w, t) + t), (centered(y, h, t), t), true);
    } else {
        lemma_single_rail((centered(x, w, t), x + w), (centered(y, h, t), t), true);
    }
}

proof fn lemma_single_arm_edge(arms: Seq<Stroke>, dir: int, cell: PixelRect)
    requires
        is_roomy(cell),
        arms.len() == 4,
        !has_double(arms),
        0 <= dir < 4,
        arms[dir] != Stroke::Absent,
    ensures
        ({
            let t = thickness(drawn_weight(arms, dir), cell.h as int);
            let cx = centered(cell.x as int, cell.w as int, t);
            let cy = centered(cell.y as int, cell.h as int, t);
            let first = if dir < 2 || !differ(arms[dir], arms[(dir + 2) % 4]) {
                dir
            } else {
                dir - 2
            };
            let bar = single_arm(arms, first, cell);
            &&& bar.len() == 1
            &&& dir == UP ==> bar[0].y == cell.y && bar[0].x == cx && bar[0].w == t
            &&& dir == DOWN ==> bar[0].y + bar[0].h == cell.y + cell.h && bar[0].x == cx && bar[0].w
                == t
            &&& dir == LEFT ==> bar[0].x == cell.x && bar[0].y == cy && bar[0].h == t
            &&& dir == RIGHT ==> bar[0].x + bar[0].w == cell.x + cell.w && bar[0].y == cy
                && bar[0].h == t
        }),
{
    if differ(arms[dir], arms[(dir + 2) % 4]) {
        reveal(shared_bar);
        let h = cell.h as int;
        let (x, y, w) = (cell.x as int, cell.y as int, cell.w as int);
        let t = thickness(drawn_weight(arms, dir), h);
        lemma_light(h);
        lemma_centered(x, w, t);
        lemma_centered(y, h, t);
        lemma_single_rail((y, y + h), (centered(x, w, t), t), false);
        lemma_single_rail((x, x + w), (centered(y, h, t), t), true);
    } else {
        lemma_plain_arm_edge(dir, arms[dir], cell);
    }
}

/// In a character without doubles, every arm runs to its edge of the cell, at an
/// offset and a thickness that only the weight it is drawn at and the cell's extent across
/// it decide. So two neighbours whose facing arms are drawn at one weight meet without a
/// seam.
pub proof fn lemma_arms_reach_edges(arms: Seq<Stroke>, cell: PixelRect)
    requires
        is_roomy(cell),
        arms.len() == 4,
        !has_double(arms),
    ensures
        ({
            let rects = solid_rects(arms, cell);
            let t = |dir: int| thickness(drawn_weight(arms, dir), cell.h as int);
            let over = |dir: int| centered(cell.y as int, cell.h as int, t(dir));
            let along = |dir: int| centered(cell.x as int, cell.w as int, t(dir));
            &&& arms[UP as int] != Stroke::Absent ==> meets_top(
                rects,
                cell,
                along(UP as int),
                t(UP as int),
            )
            &&& arms[RIGHT as int] != Stroke::Absent ==> meets_right(
                rects,
                cell,
                over(RIGHT as int),
                t(RIGHT as int),
            )
            &&& arms[DOWN as int] != Stroke::Absent ==> meets_bottom(
                rects,
                cell,
                along(DOWN as int),
                t(DOWN as int),
            )
            &&& arms[LEFT as int] != Stroke::Absent ==> meets_left(
                rects,
                cell,
                over(LEFT as int),
                t(LEFT as int),
            )
        }),
{
    let rects = solid_rects(arms, cell);
    let a0 = single_arm(arms, 0, cell);
    let a1 = single_arm(arms, 1, cell);
    let a2 = single_arm(arms, 2, cell);
    let a3 = single_arm(arms, 3, cell);
    if arms[0] != Stroke::Absent {
        lemma_single_arm_edge(arms, 0, cell);
        assert(rects[0] == a0[0]);
    }
    if arms[1] != Stroke::Absent {
        lemma_single_arm_edge(arms, 1, cell);
        assert(rects[a0.len() as int] == a1[0]);
    }
    if arms[2] != Stroke::Absent {
        lemma_single_arm_edge(arms, 2, cell);
        if differ(arms[2], arms[0]) {
            assert(rects[0] == a0[0]);
        } else {
            assert(rects[(a0.len() + a1.len()) as int] == a2[0]);
        }
    }
    if arms[3] != Stroke::Absent {
        lemma_single_arm_edge(arms, 3, cell);
        if differ(arms[3], arms[1]) {
            assert(rects[a0.len() as int] == a1[0]);
        } else {
            assert(rects[(a0.len() + a1.len() + a2.len()) as int] == a3[0]);
        }
    }
}

/// A character of two opposite arms of different weights, neither of them double, is one bar
/// across the cell at the thicker weight.
pub proof fn lemma_unlike_arms_share_a_bar(arms: Seq<Stroke>, cell: PixelRect)
    requires
        is_roomy(cell),
        arms.len() == 4,
        !has_double(arms),
    ensures
        differ(arms[LEFT as int], arms[RIGHT as int]) && arms[UP as int] == Stroke::Absent
            && arms[DOWN as int] == Stroke::Absent ==> ({
            let t = thickness(Stroke::Heavy, cell.h as int);
            solid_rects(arms, cell) == seq![
                PixelRect {
                    x: cell.x,
                    y: centered(cell.y as int, cell.h as int, t) as i64,
                    w: cell.w,
                    h: t as i64,
                },
            ]
        }),
        differ(arms[UP as int], arms[DOWN as int]) && arms[LEFT as int] == Stroke::Absent
            && arms[RIGHT as int] == Stroke::Absent ==> ({
            let t = thickness(Stroke::Heavy, cell.h as int);
            solid_rects(arms, cell) == seq![
                PixelRect {
                    x: centered(cell.x as int, cell.w as int, t) as i64,
                    y: cell.y,
                    w: t as i64,
                    h: cell.h,
                },
            ]
        }),
{
    reveal(plain_arm);
    reveal(shared_bar);
    let t = thickness(Stroke::Heavy, cell.h as int);
    lemma_single_rail(
        (cell.y as int, cell.y + cell.h),
        (centered(cell.x as int, cell.w as int, t), t),
        false,
    );
    lemma_single_rail(
        (cell.x as int, cell.x + cell.w),
        (centered(cell.y as int, cell.h as int, t), t),
        true,
    );
    if differ(arms[LEFT as int], arms[RIGHT as int]) && arms[UP as int] == Stroke::Absent
        && arms[DOWN as int] == Stroke::Absent {
        assert(solid_rects(arms, cell) =~= single_arm(arms, 1, cell));
    }
    if differ(arms[UP as int], arms[DOWN as int]) && arms[LEFT as int] == Stroke::Absent
        && arms[RIGHT as int] == Stroke::Absent {
        assert(solid_rects(arms, cell) =~= single_arm(arms, 0, cell));
    }
}

proof fn lemma_light_within_heavy(at: int, extent: int, h: int)
    requires
        1 <= h <= MAX_SIDE,
        light_of(h) + light_of(h) <= extent,
    ensures
        ({
            let t = thickness(Stroke::Light, h);
            let bar = thickness(Stroke::Heavy, h);
            centered(at, extent, bar) <= centered(at, extent, t) && centered(at, extent, t) + t
                <= centered(at, extent, bar) + bar
        }),
{
    lemma_light(h);
    let n = extent - thickness(Stroke::Light, h);
    let m = extent - thickness(Stroke::Heavy, h);
    assert(rounded(n, 2) == (n + 1) / 2);
    assert(rounded(m, 2) == (m + 1) / 2);
}

/// Two cells side by side, whose facing arms are of one weight and which hold no
/// doubles, meet at their common edge: a bar of the left one ends there and a bar of
/// the right one starts there, both on the rows of that weight. Where both arms are drawn
/// at one weight, the rows are the same.
pub proof fn lemma_neighbours_join(
    left: Seq<Stroke>,
    right: Seq<Stroke>,
    a: PixelRect,
    b: PixelRect,
)
    requires
        is_roomy(a),
        is_roomy(b),
        left.len() == 4,
        right.len() == 4,
        !has_double(left),
        !has_double(right),
        left[RIGHT as int] == right[LEFT as int],
        left[RIGHT as int] != Stroke::Absent,
        b.x == a.x + a.w,
        b.y == a.y,
        b.h == a.h,
    ensures
        exists|i: int, j: int|
            #![trigger solid_rects(left, a)[i], solid_rects(right, b)[j]]
            {
                let p = solid_rects(left, a)[i];
                let q = solid_rects(right, b)[j];
                let t = thickness(left[RIGHT as int], a.h as int);
                let at = centered(a.y as int, a.h as int, t);
                &&& 0 <= i < solid_rects(left, a).len()
                &&& 0 <= j < solid_rects(right, b).len()
                &&& p.x + p.w == q.x
                &&& p.y <= at && at + t <= p.y + p.h
                &&& q.y <= at && at + t <= q.y + q.h
                &&& drawn_weight(left, RIGHT as int) == drawn_weight(right, LEFT as int) ==> p.y
                    == q.y && p.h == q.h
            },
{
    lemma_arms_reach_edges(left, a);
    lemma_arms_reach_edges(right, b);
    let h = a.h as int;
    let pt = thickness(drawn_weight(left, RIGHT as int), h);
    let qt = thickness(drawn_weight(right, LEFT as int), h);
    let pat = centered(a.y as int, h, pt);
    let qat = centered(a.y as int, h, qt);
    let p = solid_rects(left, a);
    let q = solid_rects(right, b);
    assert(meets_right(p, a, pat, pt));
    assert(meets_left(q, b, qat, qt));
    let i = choose|i: int|
        0 <= i < p.len() && (#[trigger] p[i]).x + p[i].w == a.x + a.w && p[i].y == pat && p[i].h
            == pt;
    let j = choose|j: int|
        0 <= j < q.len() && (#[trigger] q[j]).x == b.x && q[j].y == qat && q[j].h == qt;
    lemma_light_within_heavy(a.y as int, h, h);
    assert(p[i].x + p[i].w == q[j].x);
}

/// The four quadrants cover every pixel of a cell once.
pub proof fn lemma_quadrants_tile(cell: PixelRect, px: int, py: int)
    requires
        cell.is_cell(),
        cell.x <= px < cell.x + cell.w,
        cell.y <= py < cell.y + cell.h,
    ensures
        exists|i: int| 0 <= i < 4 && #[trigger] holds_pixel(quadrant(cell, i), px, py),
        forall|i: int, j: int|
            0 <= i < 4 && 0 <= j < 4 && #[trigger] holds_pixel(quadrant(cell, i), px, py)
                && #[trigger] holds_pixel(quadrant(cell, j), px, py) ==> i == j,
{
    lemma_rounded_between(cell.w as int, 2, 0, cell.w as int);
    lemma_rounded_between(cell.h as int, 2, 0, cell.h as int);
    let right = px >= cell.x + rounded(cell.w as int, 2);
    let lower = py >= cell.y + rounded(cell.h as int, 2);
    let i: int = (if lower {
        2int
    } else {
        0
    }) + (if right {
        1int
    } else {
        0
    });
    assert(holds_pixel(quadrant(cell, i), px, py));
}

/// The rectangle covers a pixel.
pub open spec fn holds_pixel(rect: PixelRect, px: int, py: int) -> bool {
    rect.x <= px < rect.x + rect.w && rect.y <= py < rect.y + rect.h
}

/// In a cell of even height the lower half starts where the upper half ends.
pub proof fn lemma_halves_meet(cell: PixelRect)
    requires
        cell.is_cell(),
        cell.h % 2 == 0,
    ensures
        block_rects(0x2580, cell)[0].y + block_rects(0x2580, cell)[0].h == block_rects(
            0x2584,
            cell,
        )[0].y,
        block_rects(0x2584, cell)[0].y + block_rects(0x2584, cell)[0].h == cell.y + cell.h,
{
    lemma_rounded_between(cell.h as int, 2, cell.h as int / 2, cell.h as int / 2);
    lemma_rounded_between(cell.h * 4, 8, cell.h as int / 2, cell.h as int / 2);
}

/// A light stroke is an eighth of the cell's height, to the nearest pixel and at least one,
/// and a heavy one twice that, unless the cell is lower.
pub proof fn lemma_thickness(h: int)
    requires
        1 <= h,
    ensures
        light_of(h) == 1 || -8 <= 2 * (8 * light_of(h) - h) <= 8,
        h <= 8 ==> light_of(h) == 1,
        heavy_of(h) == 2 * light_of(h) || heavy_of(h) == h && h < 2 * light_of(h),
        thickness(Stroke::Absent, h) == 0,
        thickness(Stroke::Light, h) == light_of(h),
        thickness(Stroke::Double, h) == light_of(h),
        thickness(Stroke::Heavy, h) == heavy_of(h),
{
    lemma_rounded_nearest(h, 8);
}

/// A centered bar has as much room on one side as on the other, to a pixel.
pub proof fn lemma_centered_between(at: int, extent: int, t: int)
    ensures
        ({
            let near = centered(at, extent, t) - at;
            let far = at + extent - (centered(at, extent, t) + t);
            -1 <= near - far <= 1
        }),
{
    lemma_rounded_nearest(extent - t, 2);
}

/// Eighths of a length are eighths, to the nearest pixel.
pub proof fn lemma_eighths(extent: int, n: int)
    ensures
        -8 <= 2 * (8 * eighths(extent, n) - n * extent) <= 8,
        eighths(extent, 8) == extent,
        0 <= extent ==> eighths(extent, 0) == 0,
{
    lemma_rounded_nearest(extent * n, 8);
    assert(extent * n == n * extent) by (nonlinear_arith);
}

proof fn lemma_eighths_fit(extent: int, n: int)
    requires
        0 <= extent,
        0 <= n <= 8,
    ensures
        0 <= eighths(extent, n) <= extent,
{
    assert(0 <= extent * n <= extent * 8) by (nonlinear_arith)
        requires
            0 <= extent,
            0 <= n <= 8,
    ;
    lemma_rounded_between(extent * n, 8, 0, extent);
}

/// Where each block element is in its cell. The lower blocks stand on its bottom edge and
/// the left ones at its left edge, as many eighths high or wide as their names say; the
/// upper half and eighth hang from the top, and the right half and eighth are at the right;
/// each is as wide or as high as the cell otherwise. The shades are all of it, at one, two
/// and three fourths.
#[verifier::spinoff_prover]
pub proof fn lemma_block_elements(cp: int, cell: PixelRect)
    requires
        cell.is_cell(),
    ensures
        0x2581 <= cp <= 0x2588 ==> block_rects(cp, cell).len() == 1 && ({
            let r = block_rects(cp, cell)[0];
            &&& r.x == cell.x && r.w == cell.w
            &&& r.y + r.h == cell.y + cell.h
            &&& -8 <= 2 * (8 * r.h - (cp - 0x2580) * cell.h) <= 8
        }),
        0x2589 <= cp <= 0x258F ==> block_rects(cp, cell).len() == 1 && ({
            let r = block_rects(cp, cell)[0];
            &&& r.y == cell.y && r.h == cell.h
            &&& r.x == cell.x
            &&& -8 <= 2 * (8 * r.w - (0x2590 - cp) * cell.w) <= 8
        }),
        cp == 0x2580 || cp == 0x2594 ==> block_rects(cp, cell).len() == 1 && ({
            let r = block_rects(cp, cell)[0];
            &&& r.x == cell.x && r.w == cell.w
            &&& r.y == cell.y
            &&& cp == 0x2580 ==> -2 <= 2 * (2 * r.h - cell.h) <= 2
            &&& cp == 0x2594 ==> -8 <= 2 * (8 * r.h - cell.h) <= 8
        }),
        cp == 0x2590 || cp == 0x2595 ==> block_rects(cp, cell).len() == 1 && ({
            let r = block_rects(cp, cell)[0];
            &&& r.y == cell.y && r.h == cell.h
            &&& r.x + r.w == cell.x + cell.w
            &&& cp == 0x2590 ==> -2 <= 2 * (2 * r.w - cell.w) <= 2
            &&& cp == 0x2595 ==> -8 <= 2 * (8 * r.w - cell.w) <= 8
        }),
        0x2591 <= cp <= 0x2593 ==> block_rects(cp, cell).len() == 1 && block_rects(cp, cell)[0]
            == cell && quarters_of(cp) == cp - 0x2590,
        !(0x2591 <= cp <= 0x2593) ==> quarters_of(cp) == 4,
{
    let h = cell.h as int;
    let w = cell.w as int;
    lemma_rounded_nearest(h, 2);
    lemma_rounded_nearest(w, 2);
    lemma_rounded_between(h, 2, 0, h);
    lemma_rounded_between(w, 2, 0, w);
    lemma_eighths(h, 1);
    lemma_eighths(w, 1);
    if 0x2581 <= cp <= 0x2588 {
        lemma_eighths(h, cp - 0x2580);
        lemma_eighths_fit(h, cp - 0x2580);
    }
    if 0x2589 <= cp <= 0x258F {
        lemma_eighths(w, 0x2590 - cp);
        lemma_eighths_fit(w, 0x2590 - cp);
    }
    lemma_eighths_fit(h, 1);
    lemma_eighths_fit(w, 1);
}

proof fn lemma_quadrants(cell: PixelRect, filled: Seq<bool>, n: int, i: int)
    requires
        0 <= n <= filled.len(),
        0 <= i < n,
        filled[i],
    ensures
        quadrants(cell, filled, n).contains(quadrant(cell, i)),
    decreases n,
{
    let all = quadrants(cell, filled, n);
    if i == n - 1 {
        assert(all[all.len() - 1] == quadrant(cell, i));
    } else {
        lemma_quadrants(cell, filled, n - 1, i);
        let before = quadrants(cell, filled, n - 1);
        let k = choose|k: int| 0 <= k < before.len() && before[k] == quadrant(cell, i);
        assert(all[k] == before[k]);
    }
}

proof fn lemma_only_quadrants(cell: PixelRect, filled: Seq<bool>, n: int, k: int)
    requires
        0 <= n <= filled.len(),
        0 <= k < quadrants(cell, filled, n).len(),
    ensures
        exists|i: int|
            0 <= i < n && filled[i] && quadrants(cell, filled, n)[k] == #[trigger] quadrant(cell, i),
    decreases n,
{
    let all = quadrants(cell, filled, n);
    let before = quadrants(cell, filled, n - 1);
    if k < before.len() {
        lemma_only_quadrants(cell, filled, n - 1, k);
        assert(all[k] == before[k]);
        let i = choose|i: int|
            0 <= i < n - 1 && filled[i] && before[k] == #[trigger] quadrant(cell, i);
        assert(all[k] == quadrant(cell, i));
    } else {
        assert(all[k] == quadrant(cell, n - 1));
    }
}

/// The rectangle is a quadrant that is named.
pub open spec fn is_named(rect: PixelRect, cell: PixelRect, filled: Seq<bool>) -> bool {
    exists|i: int| 0 <= i < 4 && filled[i] && rect == #[trigger] quadrant(cell, i)
}

/// The quadrants of a cell that are filled are those that are named, and no others.
pub proof fn lemma_filled_quadrants(cell: PixelRect, filled: Seq<bool>)
    requires
        filled.len() == 4,
    ensures
        forall|i: int|
            0 <= i < 4 && #[trigger] filled[i] ==> quadrants(cell, filled, 4).contains(
                quadrant(cell, i),
            ),
        forall|k: int|
            0 <= k < quadrants(cell, filled, 4).len() ==> is_named(
                #[trigger] quadrants(cell, filled, 4)[k],
                cell,
                filled,
            ),
{
    assert forall|i: int| 0 <= i < 4 && #[trigger] filled[i] implies quadrants(
        cell,
        filled,
        4,
    ).contains(quadrant(cell, i)) by {
        lemma_quadrants(cell, filled, 4, i);
    }
    assert forall|k: int| 0 <= k < quadrants(cell, filled, 4).len() implies is_named(
        #[trigger] quadrants(cell, filled, 4)[k],
        cell,
        filled,
    ) by {
        lemma_only_quadrants(cell, filled, 4, k);
    }
}

/// Where the quadrants are: the first two at the top and the last two at the bottom, the
/// first and the third at the left and the others at the right, each from its corner to the
/// middle of the cell.
pub proof fn lemma_quadrant_corners(cell: PixelRect)
    requires
        cell.is_cell(),
    ensures
        quadrant(cell, 0).x == cell.x && quadrant(cell, 0).y == cell.y,
        quadrant(cell, 1).x + quadrant(cell, 1).w == cell.x + cell.w && quadrant(cell, 1).y
            == cell.y,
        quadrant(cell, 2).x == cell.x && quadrant(cell, 2).y + quadrant(cell, 2).h == cell.y
            + cell.h,
        quadrant(cell, 3).x + quadrant(cell, 3).w == cell.x + cell.w && quadrant(cell, 3).y
            + quadrant(cell, 3).h == cell.y + cell.h,
        quadrant(cell, 1).x == cell.x + quadrant(cell, 0).w,
        quadrant(cell, 3).x == cell.x + quadrant(cell, 2).w,
        quadrant(cell, 2).y == cell.y + quadrant(cell, 0).h,
        quadrant(cell, 3).y == cell.y + quadrant(cell, 1).h,
        -2 <= 2 * (2 * quadrant(cell, 0).w - cell.w) <= 2,
        -2 <= 2 * (2 * quadrant(cell, 0).h - cell.h) <= 2,
{
    lemma_rounded_nearest(cell.h as int, 2);
    lemma_rounded_nearest(cell.w as int, 2);
    lemma_rounded_between(cell.h as int, 2, 0, cell.h as int);
    lemma_rounded_between(cell.w as int, 2, 0, cell.w as int);
}

/// A diagonal is one row of pixels for each row of its cell, as wide as the stroke; the two
/// diagonals are mirror images, top to bottom; and the falling one never goes back to the
/// left.
#[verifier::spinoff_prover]
pub proof fn lemma_diagonal(cell: PixelRect, t: int, i: int)
    requires
        cell.is_cell(),
        1 <= t <= cell.w,
        0 <= i < cell.h,
    ensures
        ({
            let down = stairs(cell, t, true);
            let up = stairs(cell, t, false);
            &&& down.len() == cell.h && up.len() == cell.h
            &&& down[i].y == cell.y + i && down[i].h == 1 && down[i].w == t
            &&& up[i].y == cell.y + i && up[i].h == 1 && up[i].w == t
            &&& up[i].x == down[cell.h - 1 - i].x
            &&& cell.x <= down[i].x && down[i].x + t <= cell.x + cell.w
            &&& i + 1 < cell.h ==> down[i].x <= down[i + 1].x
        }),
{
    lemma_stair(cell, t, true, i);
    lemma_stair(cell, t, true, cell.h - 1 - i);
    let d = 2 * cell.h;
    let slope = cell.w - t;
    assert(2 * cell.h - (2 * i + 1) == 2 * (cell.h - 1 - i) + 1);
    if i + 1 < cell.h {
        lemma_stair(cell, t, true, i + 1);
        let n = 2 * cell.h * cell.x + (2 * i + 1) * slope;
        let m = 2 * cell.h * cell.x + (2 * (i + 1) + 1) * slope;
        assert((2 * i + 1) * slope <= (2 * (i + 1) + 1) * slope) by (nonlinear_arith)
            requires
                0 <= slope,
        ;
        lemma_rounded_ascends(n, m, d);
    }
}

proof fn lemma_rounded_ascends(n: int, m: int, d: int)
    requires
        0 < d,
        n <= m,
    ensures
        rounded(n, d) <= rounded(m, d),
{
    lemma_rounded_nearest(n, d);
    lemma_rounded_nearest(m, d);
    let a = rounded(n, d);
    let b = rounded(m, d);
    if b < a {
        assert(a * d >= b * d + d) by (nonlinear_arith)
            requires
                b + 1 <= a,
                0 < d,
        ;
        assert(n == m);
    }
}

/// The dashes of a bar start evenly spaced, to the nearest pixel, the first one at the start
/// of the bar; each ends at least a pixel short of where the next one starts, and the last
/// one at least a pixel short of the end.
#[verifier::spinoff_prover]
pub proof fn lemma_dashes_spaced(count: int, start: int, len: int, i: int)
    requires
        2 <= count <= 4,
        1 <= len,
        0 <= i < count,
    ensures
        -count <= 2 * (dash_span(count, start, len, i).0 * count - (start * count + i * len))
            <= count,
        dash_span(count, start, len, 0).0 == start,
        dash_span(count, start, len, i).1 < dash_span(count, start, len, i + 1).0,
        dash_span(count, start, len, count).0 == start + len,
        1 <= dash_gap(count, len),
        dash_gap(count, len) == 1 || -(3 * count) <= 2 * (3 * count * dash_gap(count, len) - len)
            <= 3 * count,
{
    let gap = dash_gap(count, len);
    lemma_rounded_nearest(start * count + i * len, count);
    lemma_rounded_nearest(len, 3 * count);
    assert(rounded(len, 3 * count) * (3 * count) == 3 * count * rounded(len, 3 * count))
        by (nonlinear_arith);
    assert(0 * len == 0);
    lemma_rounded_between(start * count, count, start, start);
    assert(start * count + count * len == (start + len) * count) by (nonlinear_arith);
    lemma_rounded_between(start * count + count * len, count, start + len, start + len);
    let n = start * count + (i + 1) * len;
    let m = n - gap * count;
    let a = rounded(n, count);
    let b = rounded(m, count);
    lemma_rounded_nearest(n, count);
    lemma_rounded_nearest(m, count);
    if b >= a {
        assert(b * count >= a * count) by (nonlinear_arith)
            requires
                b >= a,
                0 < count,
        ;
        assert(gap * count >= count) by (nonlinear_arith)
            requires
                gap >= 1,
                0 < count,
        ;
        assert(false);
    }
}

/// The spans that have a length start one after the other, none before `low`.
spec fn starts_ascend(spans: Seq<(int, int)>, low: int) -> bool {
    &&& forall|i: int|
        0 <= i < spans.len() && (#[trigger] spans[i]).0 < spans[i].1 ==> low <= spans[i].0
    &&& forall|i: int, j: int|
        0 <= i < j < spans.len() && (#[trigger] spans[i]).0 < spans[i].1 && (
        #[trigger] spans[j]).0 < spans[j].1 ==> spans[i].0 <= spans[j].0
}

/// A point lies in one of the spans.
pub open spec fn in_some(spans: Seq<(int, int)>, x: int) -> bool {
    exists|i: int| 0 <= i < spans.len() && (#[trigger] spans[i]).0 <= x < spans[i].1
}

/// Joining spans that start one after the other changes nothing of what they cover.
#[verifier::spinoff_prover]
proof fn lemma_joined_covers(spans: Seq<(int, int)>, open: Option<(int, int)>, x: int)
    requires
        open matches Some(span) ==> span.0 < span.1 && starts_ascend(spans, span.0),
        open is None ==> exists|low: int| #[trigger] starts_ascend(spans, low),
    ensures
        in_some(joined(spans, open), x) <==> in_some(spans, x) || (open matches Some(span)
            && span.0 <= x < span.1),
    decreases spans.len(),
{
    let all = joined(spans, open);
    if spans.len() == 0 {
        match open {
            Some(span) => {
                assert(all == seq![span]);
                assert(all[0] == span);
            },
            None => {},
        }
    } else {
        let next = spans[0];
        let rest = spans.drop_first();
        assert(forall|i: int| 0 <= i < rest.len() ==> #[trigger] rest[i] == spans[i + 1]);
        assert(in_some(spans, x) <==> next.0 <= x < next.1 || in_some(rest, x)) by {
            if in_some(spans, x) {
                let i = choose|i: int|
                    0 <= i < spans.len() && (#[trigger] spans[i]).0 <= x < spans[i].1;
                if i > 0 {
                    assert(rest[i - 1].0 <= x < rest[i - 1].1);
                }
            }
            if in_some(rest, x) {
                let i = choose|i: int|
                    0 <= i < rest.len() && (#[trigger] rest[i]).0 <= x < rest[i].1;
                assert(spans[i + 1].0 <= x < spans[i + 1].1);
            }
            if next.0 <= x < next.1 {
                assert(spans[0].0 <= x < spans[0].1);
            }
        }
        if next.1 <= next.0 {
            match open {
                Some(span) => assert(starts_ascend(rest, span.0)),
                None => {
                    let low = choose|low: int| #[trigger] starts_ascend(spans, low);
                    assert(starts_ascend(rest, low));
                },
            }
            lemma_joined_covers(rest, open, x);
        } else if open is None {
            assert(starts_ascend(rest, next.0)) by {
                assert forall|i: int|
                    0 <= i < rest.len() && (#[trigger] rest[i]).0 < rest[i].1 implies next.0
                    <= rest[i].0 by {
                    assert(spans[0].0 <= spans[i + 1].0);
                }
            }
            lemma_joined_covers(rest, Some(next), x);
        } else {
            let span = open->0;
            assert(starts_ascend(rest, next.0)) by {
                assert forall|i: int|
                    0 <= i < rest.len() && (#[trigger] rest[i]).0 < rest[i].1 implies next.0
                    <= rest[i].0 by {
                    assert(spans[0].0 <= spans[i + 1].0);
                }
            }
            assert(span.0 <= spans[0].0);
            if next.0 <= span.1 {
                let far = if next.1 > span.1 {
                    next.1
                } else {
                    span.1
                };
                assert(starts_ascend(rest, span.0));
                lemma_joined_covers(rest, Some((span.0, far)), x);
            } else {
                lemma_joined_covers(rest, Some(next), x);
                let tail = joined(rest, Some(next));
                assert(all == seq![span] + tail);
                if in_some(all, x) {
                    let i = choose|i: int|
                        0 <= i < all.len() && (#[trigger] all[i]).0 <= x < all[i].1;
                    if i > 0 {
                        assert(tail[i - 1] == all[i]);
                    }
                }
                if in_some(tail, x) {
                    let i = choose|i: int|
                        0 <= i < tail.len() && (#[trigger] tail[i]).0 <= x < tail[i].1;
                    assert(all[i + 1] == tail[i]);
                }
                if span.0 <= x < span.1 {
                    assert(all[0] == span);
                }
            }
        }
    }
}

/// A rectangle of a rail of a given offset and thickness that covers a point along it.
#[verifier::opaque]
pub open spec fn rail_covers(
    rects: Seq<PixelRect>,
    across: (int, int),
    horizontal: bool,
    x: int,
) -> bool {
    exists|i: int|
        0 <= i < rects.len() && (if horizontal {
            (#[trigger] rects[i]).x <= x < rects[i].x + rects[i].w && rects[i].y == across.0
                && rects[i].h == across.1
        } else {
            rects[i].y <= x < rects[i].y + rects[i].h && rects[i].x == across.0 && rects[i].w
                == across.1
        })
}

#[verifier::spinoff_prover]
proof fn lemma_rail_covers(
    spans: Seq<(int, int)>,
    across: (int, int),
    horizontal: bool,
    low: int,
    high: int,
    x: int,
)
    requires
        starts_ascend(spans, low),
        forall|i: int|
            0 <= i < spans.len() && (#[trigger] spans[i]).0 < spans[i].1 ==> low <= spans[i].0
                && spans[i].1 <= high,
        -0x2_0000_0000_0000 <= low <= high <= 0x2_0000_0000_0000,
        -0x2_0000_0000_0000 <= across.0 <= 0x2_0000_0000_0000,
        0 <= across.1 <= 0x2_0000_0000_0000,
        in_some(spans, x),
    ensures
        rail_covers(rail(spans, across, horizontal), across, horizontal, x),
{
    reveal(rail_covers);
    lemma_joined_covers(spans, None, x);
    lemma_joined_within(spans, None, low, high);
    let runs = joined(spans, None);
    let rects = rail(spans, across, horizontal);
    let i = choose|i: int| 0 <= i < runs.len() && (#[trigger] runs[i]).0 <= x < runs[i].1;
    assert(rects[i] == piece(runs[i], across, horizontal));
    assert(low <= runs[i].0 < runs[i].1 <= high);
}

/// In a junction with a double arm along an axis, both rails of that axis cover everything
/// from the middle of the cell out to the edges that it has arms to.
#[verifier::spinoff_prover]
proof fn lemma_double_rails(
    before: Stroke,
    after: Stroke,
    crossed: (bool, bool),
    cell: PixelRect,
    horizontal: bool,
    x: int,
)
    requires
        is_roomy(cell),
        before == Stroke::Double || after == Stroke::Double,
        ({
            let (at, extent) = extent_along(cell, horizontal);
            let light = light_of(cell.h as int);
            let mid = centered(at, extent, light);
            ||| before != Stroke::Absent && at <= x < mid
            ||| after != Stroke::Absent && mid + light <= x < at + extent
        }),
    ensures
        ({
            let light = light_of(cell.h as int);
            let (at, extent) = extent_along(cell, !horizontal);
            let center = centered(at, extent, light);
            let rects = junction_axis(
                before,
                after,
                extent_along(cell, horizontal),
                extent_along(cell, !horizontal),
                crossed,
                cell.h as int,
                horizontal,
            );
            &&& rail_covers(rects, (center - light, light), horizontal, x)
            &&& rail_covers(rects, (center + light, light), horizontal, x)
        }),
{
    let h = cell.h as int;
    let light = light_of(h);
    lemma_light(h);
    let (at, extent) = extent_along(cell, horizontal);
    let (over, width) = extent_along(cell, !horizontal);
    lemma_centered(over, width, light);
    let center = centered(over, width, light);
    let near = rail_spans(before, after, crossed.0, at, extent, light);
    let far = rail_spans(before, after, crossed.1, at, extent, light);
    lemma_rail_spans(before, after, crossed.0, at, extent, light, x);
    lemma_rail_spans(before, after, crossed.1, at, extent, light, x);
    lemma_rail_covers(near, (center - light, light), horizontal, at, at + extent, x);
    lemma_rail_covers(far, (center + light, light), horizontal, at, at + extent, x);
    let a = rail(near, (center - light, light), horizontal);
    let b = rail(far, (center + light, light), horizontal);
    lemma_covers_append(a, b, (center - light, light), horizontal, x);
    lemma_covers_append(a, b, (center + light, light), horizontal, x);
    lemma_double_axis(before, after, (at, extent), (over, width), crossed, h, horizontal);
}

proof fn lemma_double_axis(
    before: Stroke,
    after: Stroke,
    along: (int, int),
    across: (int, int),
    crossed: (bool, bool),
    h: int,
    horizontal: bool,
)
    requires
        before == Stroke::Double || after == Stroke::Double,
    ensures
        ({
            let light = light_of(h);
            let center = centered(across.0, across.1, light);
            junction_axis(before, after, along, across, crossed, h, horizontal) == rail(
                rail_spans(before, after, crossed.0, along.0, along.1, light),
                (center - light, light),
                horizontal,
            ) + rail(
                rail_spans(before, after, crossed.1, along.0, along.1, light),
                (center + light, light),
                horizontal,
            )
        }),
{
    reveal(junction_axis);
    reveal(rail_spans);
}

/// The spans of one rail of a double.
#[verifier::opaque]
spec fn rail_spans(
    before: Stroke,
    after: Stroke,
    crossed: bool,
    at: int,
    extent: int,
    light: int,
) -> Seq<(int, int)> {
    let mid = centered(at, extent, light);
    seq![
        span_if(before != Stroke::Absent, (at, mid)),
        span_if(!crossed, (mid - light, mid + 2 * light)),
        span_if(after != Stroke::Absent, (mid + light, at + extent)),
    ]
}

#[verifier::spinoff_prover]
proof fn lemma_rail_spans(
    before: Stroke,
    after: Stroke,
    crossed: bool,
    at: int,
    extent: int,
    light: int,
    x: int,
)
    requires
        1 <= light,
        3 * light <= extent,
        ({
            let mid = centered(at, extent, light);
            ||| before != Stroke::Absent && at <= x < mid
            ||| after != Stroke::Absent && mid + light <= x < at + extent
        }),
    ensures
        ({
            let spans = rail_spans(before, after, crossed, at, extent, light);
            &&& starts_ascend(spans, at)
            &&& in_some(spans, x)
            &&& forall|i: int|
                0 <= i < spans.len() && (#[trigger] spans[i]).0 < spans[i].1 ==> at <= spans[i].0
                    && spans[i].1 <= at + extent
        }),
{
    reveal(rail_spans);
    let spans = rail_spans(before, after, crossed, at, extent, light);
    lemma_centered(at, extent, light);
    lemma_centered_between(at, extent, light);
    let mid = centered(at, extent, light);
    assert(mid - light >= at && mid + 2 * light <= at + extent);
    assert(spans[0].0 <= x < spans[0].1 || spans[2].0 <= x < spans[2].1);
}

proof fn lemma_covers_append(
    a: Seq<PixelRect>,
    b: Seq<PixelRect>,
    across: (int, int),
    horizontal: bool,
    x: int,
)
    requires
        rail_covers(a, across, horizontal, x) || rail_covers(b, across, horizontal, x),
    ensures
        rail_covers(a + b, across, horizontal, x),
{
    reveal(rail_covers);
    let all = a + b;
    if rail_covers(a, across, horizontal, x) {
        let i = choose|i: int|
            0 <= i < a.len() && (if horizontal {
                (#[trigger] a[i]).x <= x < a[i].x + a[i].w && a[i].y == across.0 && a[i].h
                    == across.1
            } else {
                a[i].y <= x < a[i].y + a[i].h && a[i].x == across.0 && a[i].w == across.1
            });
        assert(all[i] == a[i]);
    } else {
        let i = choose|i: int|
            0 <= i < b.len() && (if horizontal {
                (#[trigger] b[i]).x <= x < b[i].x + b[i].w && b[i].y == across.0 && b[i].h
                    == across.1
            } else {
                b[i].y <= x < b[i].y + b[i].h && b[i].x == across.0 && b[i].w == across.1
            });
        assert(all[a.len() + i] == b[i]);
    }
}

/// In a character with doubles, every double arm is two light rails that run out to its edge
/// of the cell, one on each side of where a single bar would be.
#[verifier::spinoff_prover]
pub proof fn lemma_double_arms_reach_edges(arms: Seq<Stroke>, cell: PixelRect, dir: int)
    requires
        is_roomy(cell),
        arms.len() == 4,
        0 <= dir < 4,
        arms[dir] == Stroke::Double,
    ensures
        ({
            let light = light_of(cell.h as int);
            let sideways = dir == RIGHT || dir == LEFT;
            let center = if sideways {
                centered(cell.y as int, cell.h as int, light)
            } else {
                centered(cell.x as int, cell.w as int, light)
            };
            let edge = if dir == RIGHT {
                cell.x + cell.w - 1
            } else if dir == LEFT {
                cell.x as int
            } else if dir == DOWN {
                cell.y + cell.h - 1
            } else {
                cell.y as int
            };
            let rects = solid_rects(arms, cell);
            &&& rail_covers(rects, (center - light, light), sideways, edge)
            &&& rail_covers(rects, (center + light, light), sideways, edge)
        }),
{
    let light = light_of(cell.h as int);
    lemma_light(cell.h as int);
    lemma_centered(cell.x as int, cell.w as int, light);
    lemma_centered(cell.y as int, cell.h as int, light);
    lemma_centered_between(cell.x as int, cell.w as int, light);
    lemma_centered_between(cell.y as int, cell.h as int, light);
    let up = junction_axis(
        arms[UP as int],
        arms[DOWN as int],
        (cell.y as int, cell.h as int),
        (cell.x as int, cell.w as int),
        (arms[LEFT as int] == Stroke::Double, arms[RIGHT as int] == Stroke::Double),
        cell.h as int,
        false,
    );
    let side = junction_axis(
        arms[LEFT as int],
        arms[RIGHT as int],
        (cell.x as int, cell.w as int),
        (cell.y as int, cell.h as int),
        (arms[UP as int] == Stroke::Double, arms[DOWN as int] == Stroke::Double),
        cell.h as int,
        true,
    );
    assert(has_double(arms));
    assert(solid_rects(arms, cell) == up + side);
    if dir == RIGHT || dir == LEFT {
        let edge = if dir == RIGHT {
            cell.x + cell.w - 1
        } else {
            cell.x as int
        };
        let center = centered(cell.y as int, cell.h as int, light);
        lemma_double_rails(
            arms[LEFT as int],
            arms[RIGHT as int],
            (arms[UP as int] == Stroke::Double, arms[DOWN as int] == Stroke::Double),
            cell,
            true,
            edge,
        );
        lemma_covers_append(up, side, (center - light, light), true, edge);
        lemma_covers_append(up, side, (center + light, light), true, edge);
    } else {
        let edge = if dir == DOWN {
            cell.y + cell.h - 1
        } else {
            cell.y as int
        };
        let center = centered(cell.x as int, cell.w as int, light);
        lemma_double_rails(
            arms[UP as int],
            arms[DOWN as int],
            (arms[LEFT as int] == Stroke::Double, arms[RIGHT as int] == Stroke::Double),
            cell,
            false,
            edge,
        );
        lemma_covers_append(up, side, (center - light, light), false, edge);
        lemma_covers_append(up, side, (center + light, light), false, edge);
    }
}

/// Painting gives every rectangle the color and the share, and moves none.
pub proof fn lemma_painted(rects: Seq<PixelRect>, color: Color, quarters: u32, i: int)
    requires
        0 <= i < rects.len(),
    ensures
        painted(rects, color, quarters).len() == rects.len(),
        painted(rects, color, quarters)[i].rect == rects[i],
        painted(rects, color, quarters)[i].color == color,
        painted(rects, color, quarters)[i].quarters == quarters,
{
}

/// Which geometry a character has: the diagonals are staircases, one or both, the dashed
/// lines bars of as many dashes as they have, along their arms and centered across them, and
/// all others are drawn arm by arm.
pub proof fn lemma_box_characters(cp: int, cell: PixelRect)
    requires
        0x2500 <= cp <= 0x257F,
    ensures
        procedural_rects(cp, cell) == box_rects(cp, cell),
        cp == 0x2571 ==> box_rects(cp, cell) == stairs(cell, light_of(cell.h as int), false),
        cp == 0x2572 ==> box_rects(cp, cell) == stairs(cell, light_of(cell.h as int), true),
        cp == 0x2573 ==> box_rects(cp, cell) == stairs(cell, light_of(cell.h as int), true)
            + stairs(cell, light_of(cell.h as int), false),
        !(0x2571 <= cp <= 0x2573) && box_table::dashes_of(cp) is None ==> box_rects(cp, cell)
            == solid_rects(box_table::arms_of(cp), cell),
{
    let light = light_of(cell.h as int);
    assert(stairs(cell, light, true) + Seq::<PixelRect>::empty() =~= stairs(cell, light, true));
    assert(Seq::<PixelRect>::empty() + stairs(cell, light, false) =~= stairs(cell, light, false));
}

/// A rectangle lies along a dash of a bar.
pub open spec fn is_dash(
    rect: PixelRect,
    span: (int, int),
    across: (int, int),
    horizontal: bool,
) -> bool {
    if horizontal {
        rect.x == span.0 && rect.x + rect.w == span.1 && rect.y == across.0 && rect.h == across.1
    } else {
        rect.y == span.0 && rect.y + rect.h == span.1 && rect.x == across.0 && rect.w == across.1
    }
}

/// A rectangle is one of the first `n` dashes of a bar.
pub open spec fn is_some_dash(
    rect: PixelRect,
    count: int,
    start: int,
    len: int,
    across: (int, int),
    horizontal: bool,
    n: int,
) -> bool {
    exists|i: int|
        0 <= i < n && #[trigger] is_dash(
            rect,
            dash_span(count, start, len, i),
            across,
            horizontal,
        )
}

/// A dashed bar is its dashes, no more of them than it has.
pub proof fn lemma_dash_rects(
    count: int,
    start: int,
    len: int,
    across: (int, int),
    horizontal: bool,
    n: int,
)
    requires
        2 <= count <= 4,
        0 <= n <= count,
        1 <= len <= MAX_SIDE,
        -MAX_OFFSET <= start <= MAX_OFFSET,
        -0x2_0000_0000_0000 <= across.0 <= 0x2_0000_0000_0000,
        0 <= across.1 <= MAX_SIDE,
    ensures
        ({
            let rects = dash_rects(count, start, len, across, horizontal, n);
            &&& rects.len() <= n
            &&& forall|k: int|
                0 <= k < rects.len() ==> is_some_dash(
                    #[trigger] rects[k],
                    count,
                    start,
                    len,
                    across,
                    horizontal,
                    n,
                )
            &&& (forall|i: int|
                0 <= i < n ==> (#[trigger] dash_span(count, start, len, i)).0 < dash_span(
                    count,
                    start,
                    len,
                    i,
                ).1) ==> rects.len() == n
        }),
    decreases n,
{
    if n > 0 {
        lemma_dash_rects(count, start, len, across, horizontal, n - 1);
        lemma_dash(count, start, len, n - 1);
        let before = dash_rects(count, start, len, across, horizontal, n - 1);
        let rects = dash_rects(count, start, len, across, horizontal, n);
        let span = dash_span(count, start, len, n - 1);
        assert forall|k: int| 0 <= k < rects.len() implies is_some_dash(
            #[trigger] rects[k],
            count,
            start,
            len,
            across,
            horizontal,
            n,
        ) by {
            if k < before.len() {
                assert(rects[k] == before[k]);
                let i = choose|i: int|
                    0 <= i < n - 1 && #[trigger] is_dash(
                        before[k],
                        dash_span(count, start, len, i),
                        across,
                        horizontal,
                    );
                assert(is_dash(
                    rects[k],
                    dash_span(count, start, len, i),
                    across,
                    horizontal,
                ));
            } else {
                assert(is_dash(rects[k], span, across, horizontal));
            }
        }
    }
}

/// The quadrant characters come in pairs that together fill the cell, each quadrant once.
pub proof fn lemma_quadrant_complements(i: int)
    requires
        0 <= i < 4,
    ensures
        QUADRANTS[0]@[i] == !QUADRANTS[6]@[i],
        QUADRANTS[1]@[i] == !QUADRANTS[5]@[i],
        QUADRANTS[2]@[i] == !QUADRANTS[9]@[i],
        QUADRANTS[7]@[i] == !QUADRANTS[3]@[i],
        QUADRANTS[4]@[i] == !QUADRANTS[8]@[i],
        QUADRANTS[0]@[i] <==> i == 2,
        QUADRANTS[1]@[i] <==> i == 3,
        QUADRANTS[2]@[i] <==> i == 0,
        QUADRANTS[7]@[i] <==> i == 1,
        QUADRANTS[4]@[i] <==> i == 0 || i == 3,
{
}

/// No rectangle reaches the edge of the cell in a direction.
pub open spec fn stays_off(rects: Seq<PixelRect>, cell: PixelRect, dir: int) -> bool {
    forall|i: int|
        0 <= i < rects.len() ==> {
            let r = #[trigger] rects[i];
            &&& dir == UP ==> cell.y < r.y
            &&& dir == RIGHT ==> r.x + r.w < cell.x + cell.w
            &&& dir == DOWN ==> r.y + r.h < cell.y + cell.h
            &&& dir == LEFT ==> cell.x < r.x
        }
}

proof fn lemma_stays_off_append(a: Seq<PixelRect>, b: Seq<PixelRect>, cell: PixelRect, dir: int)
    requires
        stays_off(a, cell, dir),
        stays_off(b, cell, dir),
    ensures
        stays_off(a + b, cell, dir),
{
    let all = a + b;
    assert forall|i: int| 0 <= i < all.len() implies {
        let r = #[trigger] all[i];
        &&& dir == UP ==> cell.y < r.y
        &&& dir == RIGHT ==> r.x + r.w < cell.x + cell.w
        &&& dir == DOWN ==> r.y + r.h < cell.y + cell.h
        &&& dir == LEFT ==> cell.x < r.x
    } by {
        if i < a.len() {
            assert(all[i] == a[i]);
        } else {
            assert(all[i] == b[i - a.len()]);
        }
    }
}

#[verifier::spinoff_prover]
proof fn lemma_arm_stays_off(arms: Seq<Stroke>, dir: int, cell: PixelRect, off: int)
    requires
        is_roomy(cell),
        3 * light_of(cell.h as int) < cell.w,
        3 * light_of(cell.h as int) < cell.h,
        arms.len() == 4,
        !has_double(arms),
        0 <= dir < 4,
        0 <= off < 4,
        arms[off] == Stroke::Absent,
    ensures
        stays_off(single_arm(arms, dir, cell), cell, off),
{
    reveal(plain_arm);
    reveal(shared_bar);
    let h = cell.h as int;
    let (x, y, w) = (cell.x as int, cell.y as int, cell.w as int);
    lemma_light(h);
    let stroke = drawn_weight(arms, dir);
    let t = thickness(stroke, h);
    lemma_centered(x, w, t);
    lemma_centered(y, h, t);
    lemma_centered_between(x, w, t);
    lemma_centered_between(y, h, t);
    let cx = centered(x, w, t);
    let cy = centered(y, h, t);
    if arms[dir] != Stroke::Absent {
        if !differ(arms[dir], arms[(dir + 2) % 4]) {
            assert(arms[dir] == stroke);
            if dir == UP {
                lemma_single_rail((y, cy + t), (cx, t), false);
            } else if dir == DOWN {
                lemma_single_rail((cy, y + h), (cx, t), false);
            } else if dir == LEFT {
                lemma_single_rail((x, cx + t), (cy, t), true);
            } else {
                lemma_single_rail((cx, x + w), (cy, t), true);
            }
        } else if dir == UP {
            lemma_single_rail((y, y + h), (cx, t), false);
        } else if dir == RIGHT {
            let bar = thickness(arms[LEFT as int].heavier(arms[RIGHT as int]), h);
            lemma_centered(y, h, bar);
            lemma_centered_between(y, h, bar);
            lemma_single_rail((x, x + w), (centered(y, h, bar), bar), true);
        }
    }
}

/// In a character without doubles, nothing reaches the edge of the cell that it has no arm
/// to.
pub proof fn lemma_absent_arms(arms: Seq<Stroke>, cell: PixelRect, off: int)
    requires
        is_roomy(cell),
        3 * light_of(cell.h as int) < cell.w,
        3 * light_of(cell.h as int) < cell.h,
        arms.len() == 4,
        !has_double(arms),
        0 <= off < 4,
        arms[off] == Stroke::Absent,
    ensures
        stays_off(solid_rects(arms, cell), cell, off),
{
    lemma_arm_stays_off(arms, 0, cell, off);
    lemma_arm_stays_off(arms, 1, cell, off);
    lemma_arm_stays_off(arms, 2, cell, off);
    lemma_arm_stays_off(arms, 3, cell, off);
    let a = single_arm(arms, 0, cell);
    let b = single_arm(arms, 1, cell);
    let c = single_arm(arms, 2, cell);
    let d = single_arm(arms, 3, cell);
    lemma_stays_off_append(a, b, cell, off);
    lemma_stays_off_append(a + b, c, cell, off);
    lemma_stays_off_append(a + b + c, d, cell, off);
}

} // verus!
