//! Glyph outlines as closed contours of segments.
//!
//! Points are em coordinates, held as the bit patterns of single-precision numbers. The
//! one coordinate computation an outline needs (the middle of a line, the quarters of a
//! cubic) is left to whoever turns the segments into quadratics: a line and a quadratic
//! become one each, a cubic four.

use vstd::prelude::*;
use crate::bits;

verus! {

/// A point, by the bit patterns of its coordinates.
#[derive(Clone, Copy, Debug, PartialEq, Eq, Structural)]
pub struct Point {
    pub x: u32,
    pub y: u32,
}

impl Point {
    /// Both coordinates compare equal.
    pub open spec fn same(self, other: Point) -> bool {
        bits::float_eq(self.x, other.x) && bits::float_eq(self.y, other.y)
    }

    fn is_same(self, other: Point) -> (yes: bool)
        ensures
            yes == self.same(other),
    {
        bits::same(self.x, other.x) && bits::same(self.y, other.y)
    }
}

/// A step of a path.
#[derive(Clone, Copy, Debug, PartialEq, Eq, Structural)]
pub enum Command {
    MoveTo(Point),
    LineTo(Point),
    QuadTo(Point, Point),
    CurveTo(Point, Point, Point),
    Close,
}

/// The kind of a command.
pub open spec fn kind(command: Command) -> int {
    match command {
        Command::MoveTo(_) => 0,
        Command::LineTo(_) => 1,
        Command::QuadTo(_, _) => 2,
        Command::CurveTo(_, _, _) => 3,
        Command::Close => 4,
    }
}

fn kind_of(command: Command) -> (k: u8)
    ensures
        k == kind(command),
{
    match command {
        Command::MoveTo(_) => 0,
        Command::LineTo(_) => 1,
        Command::QuadTo(_, _) => 2,
        Command::CurveTo(_, _, _) => 3,
        Command::Close => 4,
    }
}

/// Whether two masters interpolate: same commands, same order. The blend is per control
/// point, so a differing command sequence would pair up unrelated points and produce a
/// shape belonging to neither master.
pub fn masters_compatible(a: &Vec<Command>, b: &Vec<Command>) -> (yes: bool)
    ensures
        yes == (a@.len() == b@.len() && forall|i: int|
            0 <= i < a@.len() ==> kind(#[trigger] a@[i]) == kind(b@[i])),
{
    if a.len() != b.len() {
        return false;
    }
    let mut i: usize = 0;
    while i < a.len()
        invariant
            i <= a@.len() == b@.len(),
            forall|k: int| 0 <= k < i ==> kind(#[trigger] a@[k]) == kind(b@[k]),
        decreases a@.len() - i,
    {
        if kind_of(a[i]) != kind_of(b[i]) {
            assert(kind(a@[i as int]) != kind(b@[i as int]));
            return false;
        }
        i = i + 1;
    }
    true
}

/// A piece of a contour.
#[derive(Clone, Copy, Debug, PartialEq, Eq, Structural)]
pub enum Segment {
    Line { from: Point, to: Point },
    Quad { from: Point, control: Point, to: Point },
    Cubic { from: Point, first: Point, second: Point, to: Point },
}

impl Segment {
    /// Where the segment starts.
    pub open spec fn start(self) -> Point {
        match self {
            Segment::Line { from, .. } => from,
            Segment::Quad { from, .. } => from,
            Segment::Cubic { from, .. } => from,
        }
    }

    /// Where the segment ends.
    pub open spec fn end(self) -> Point {
        match self {
            Segment::Line { to, .. } => to,
            Segment::Quad { to, .. } => to,
            Segment::Cubic { to, .. } => to,
        }
    }

    /// Quadratics that the segment becomes.
    pub open spec fn pieces(self) -> int {
        match self {
            Segment::Cubic { .. } => 4,
            _ => 1,
        }
    }

    /// Quadratics that the segment becomes.
    pub fn quadratics(self) -> (n: u32)
        ensures
            n == self.pieces(),
    {
        match self {
            Segment::Cubic { .. } => 4,
            _ => 1,
        }
    }
}

/// A path being drawn: the contours that are done, the segments of the one being drawn,
/// the point it started at, the point it is at, and whether it was opened by a move.
pub ghost struct PathState {
    pub done: Seq<Seq<Segment>>,
    pub run: Seq<Segment>,
    pub start: Point,
    pub current: Point,
    pub open: bool,
}

impl PathState {
    /// Nothing drawn yet.
    pub open spec fn fresh() -> PathState {
        PathState {
            done: Seq::empty(),
            run: Seq::empty(),
            start: Point { x: 0, y: 0 },
            current: Point { x: 0, y: 0 },
            open: false,
        }
    }

    /// The path with one more segment.
    pub open spec fn drawn(self, segment: Segment) -> PathState {
        PathState { run: self.run.push(segment), current: segment.end(), ..self }
    }

    /// The path with its contour ended: an open one that is not back at its start gets a
    /// line there.
    pub open spec fn closed(self) -> PathState {
        let back = if self.open && !self.current.same(self.start) {
            self.drawn(Segment::Line { from: self.current, to: self.start })
        } else {
            self
        };
        PathState {
            done: if back.run.len() > 0 {
                back.done.push(back.run)
            } else {
                back.done
            },
            run: Seq::empty(),
            open: false,
            ..back
        }
    }

    /// The path after one command.
    pub open spec fn stepped(self, command: Command) -> PathState {
        match command {
            Command::MoveTo(p) => PathState { start: p, current: p, open: true, ..self.closed() },
            Command::LineTo(p) => self.drawn(Segment::Line { from: self.current, to: p }),
            Command::QuadTo(c, p) => self.drawn(
                Segment::Quad { from: self.current, control: c, to: p },
            ),
            Command::CurveTo(c, d, p) => self.drawn(
                Segment::Cubic { from: self.current, first: c, second: d, to: p },
            ),
            Command::Close => self.closed(),
        }
    }
}

/// The path after the first `n` commands.
pub open spec fn path_after(commands: Seq<Command>, n: int) -> PathState
    decreases n,
{
    if n <= 0 {
        PathState::fresh()
    } else {
        path_after(commands, n - 1).stepped(commands[n - 1])
    }
}

/// The contours of a whole path.
pub open spec fn contours_of(commands: Seq<Command>) -> Seq<Seq<Segment>> {
    path_after(commands, commands.len() as int).closed().done
}

/// The segment after the `i`-th one starts where that one ends.
pub open spec fn carries_on(contour: Seq<Segment>, i: int) -> bool {
    contour[i].end() == contour[i + 1].start()
}

/// Each segment of a contour starts where the one before ends.
pub open spec fn chained(contour: Seq<Segment>) -> bool {
    forall|i: int| 0 <= i && i + 1 < contour.len() ==> #[trigger] carries_on(contour, i)
}

/// The contour ends where it starts.
pub open spec fn is_closed(contour: Seq<Segment>) -> bool {
    contour.last().end() == contour[0].start() || contour.last().end().same(contour[0].start())
}

/// The command draws: it is neither a move nor a close.
pub open spec fn is_drawing(command: Command) -> bool {
    command is LineTo || command is QuadTo || command is CurveTo
}

/// A move comes before the command, with no close between the two.
pub open spec fn moved_before(commands: Seq<Command>, i: int) -> bool {
    exists|m: int|
        0 <= m < i && #[trigger] commands[m] is MoveTo && forall|k: int|
            m < k < i ==> !(#[trigger] commands[k] is Close)
}

/// A drawing command comes only after a move since the last close.
pub open spec fn moves_first(commands: Seq<Command>) -> bool {
    forall|i: int|
        0 <= i < commands.len() && is_drawing(#[trigger] commands[i]) ==> moved_before(commands, i)
}

/// The point that a move or a drawing command leads to.
pub open spec fn led_to(command: Command) -> Point {
    match command {
        Command::MoveTo(p) => p,
        Command::LineTo(p) => p,
        Command::QuadTo(_, p) => p,
        Command::CurveTo(_, _, p) => p,
        Command::Close => Point { x: 0, y: 0 },
    }
}

/// The segment is what the command asks for: of its kind, through its control points in
/// their order, to its end.
pub open spec fn draws(command: Command, segment: Segment) -> bool {
    match (command, segment) {
        (Command::LineTo(p), Segment::Line { to, .. }) => to == p,
        (Command::QuadTo(c, p), Segment::Quad { control, to, .. }) => control == c && to == p,
        (Command::CurveTo(c, d, p), Segment::Cubic { first, second, to, .. }) => first == c && second
            == d && to == p,
        _ => false,
    }
}

/// The place is one of a segment in the contours.
pub open spec fn is_place(contours: Seq<Seq<Segment>>, place: (int, int)) -> bool {
    0 <= place.0 < contours.len() && 0 <= place.1 < contours[place.0].len()
}

/// One place comes before the other.
pub open spec fn earlier(a: (int, int), b: (int, int)) -> bool {
    a.0 < b.0 || a.0 == b.0 && a.1 < b.1
}

/// A drawing command is shown at a place.
pub open spec fn taken(commands: Seq<Command>, places: Seq<(int, int)>, k: int, j: int) -> bool {
    exists|i: int| 0 <= i < commands.len() && is_drawing(#[trigger] commands[i]) && places[i] == (k, j)
}

/// The segment is a line back to where its contour started, at the end of a contour that was
/// not back there.
pub open spec fn is_closing(contour: Seq<Segment>, j: int) -> bool {
    &&& j == contour.len() - 1
    &&& contour[j] is Line
    &&& contour[j].end() == contour[0].start()
    &&& !contour[j].start().same(contour[0].start())
}

/// The contour starts with a command that comes after a move.
pub open spec fn opened(commands: Seq<Command>, places: Seq<(int, int)>, k: int) -> bool {
    exists|i: int|
        0 <= i < commands.len() && is_drawing(#[trigger] commands[i]) && places[i] == (k, 0int)
            && moved_before(commands, i)
}

/// The `m`-th command is the move that the contour being drawn at the `i`-th one started
/// with.
pub open spec fn is_last_move(commands: Seq<Command>, m: int, i: int) -> bool {
    &&& 0 <= m < i
    &&& commands[m] is MoveTo
    &&& forall|k: int|
        m < k < i ==> !(#[trigger] commands[k] is MoveTo) && !(commands[k] is Close)
}

/// The segment is right for the `i`-th command: it draws it, and starts where the command
/// before it led to. After a close that is back where the contour started, and the first
/// command starts at the origin.
#[verifier::opaque]
pub open spec fn drawn_right(commands: Seq<Command>, i: int, segment: Segment) -> bool {
    &&& draws(commands[i], segment)
    &&& i == 0 ==> segment.start() == Point { x: 0, y: 0 }
    &&& i > 0 && !(commands[i - 1] is Close) ==> segment.start() == led_to(commands[i - 1])
    &&& i > 0 && commands[i - 1] is Close ==> forall|m: int| #[trigger]
        is_last_move(commands, m, i - 1) ==> segment.start() == led_to(commands[m])
            || segment.start().same(led_to(commands[m]))
}

/// The places go by the order of the commands: those of two drawing commands in a row are
/// right behind each other, and those of commands with a move or a close between them are in
/// different contours.
#[verifier::opaque]
pub open spec fn in_order(commands: Seq<Command>, places: Seq<(int, int)>) -> bool {
    &&& forall|a: int, b: int|
        0 <= a < b < commands.len() && is_drawing(#[trigger] commands[a]) && is_drawing(
            #[trigger] commands[b],
        ) ==> earlier(places[a], places[b])
    &&& forall|a: int, m: int, b: int|
        0 <= a < m < b < commands.len() && is_drawing(#[trigger] commands[a]) && !is_drawing(
            #[trigger] commands[m],
        ) && is_drawing(#[trigger] commands[b]) ==> places[a].0 < places[b].0
    &&& forall|a: int, b: int|
        0 <= a < commands.len() && b == a + 1 && b < commands.len() && is_drawing(
            #[trigger] commands[a],
        ) && is_drawing(#[trigger] commands[b]) ==> places[b] == (places[a].0, places[a].1 + 1)
}

/// Every segment is a command's, or a line that closes its contour, one that a move opened.
#[verifier::opaque]
pub open spec fn accounted(
    commands: Seq<Command>,
    contours: Seq<Seq<Segment>>,
    places: Seq<(int, int)>,
) -> bool {
    forall|k: int, j: int|
        #![trigger contours[k][j]]
        is_place(contours, (k, j)) ==> taken(commands, places, k, j) || is_closing(contours[k], j)
            && (j > 0 ==> opened(commands, places, k))
}

/// The contours show the commands: every drawing command has a segment of its own that is
/// right for it, at the place listed for it, the places go by the order of the commands, and
/// every other segment closes its contour.
pub open spec fn shows(
    commands: Seq<Command>,
    contours: Seq<Seq<Segment>>,
    places: Seq<(int, int)>,
) -> bool {
    &&& places.len() == commands.len()
    &&& forall|i: int|
        0 <= i < commands.len() && is_drawing(#[trigger] commands[i]) ==> is_place(
            contours,
            places[i],
        ) && drawn_right(commands, i, contours[places[i].0][places[i].1])
    &&& in_order(commands, places)
    &&& accounted(commands, contours, places)
}

/// What is so far true of the places of the first `n` commands: `all` is the contours that
/// are done and the one being drawn.
spec fn shown_so_far(
    commands: Seq<Command>,
    n: int,
    state: PathState,
    places: Seq<(int, int)>,
) -> bool {
    let part = commands.take(n);
    let all = state.done.push(state.run);
    let next = (state.done.len() as int, state.run.len() as int);
    &&& shows(part, all, places)
    &&& forall|j: int|
        0 <= j < state.run.len() ==> #[trigger] taken(part, places, state.done.len() as int, j)
    &&& forall|i: int| 0 <= i < n && is_drawing(#[trigger] part[i]) ==> earlier(places[i], next)
    &&& forall|a: int, m: int|
        0 <= a < m < n && is_drawing(#[trigger] part[a]) && !is_drawing(#[trigger] part[m])
            ==> places[a].0 < state.done.len()
    &&& n > 0 && is_drawing(part[n - 1]) ==> places[n - 1] == (next.0, next.1 - 1)
    &&& n > 0 && !(part[n - 1] is Close) ==> state.current == led_to(part[n - 1])
    &&& n == 0 ==> state.current == Point { x: 0, y: 0 }
    &&& state.open && state.run.len() > 0 ==> state.run[0].start() == state.start
    &&& state.open && state.run.len() == 0 ==> state.current == state.start
    &&& state.open <==> moved_before(commands, n)
    &&& state.open && state.run.len() > 0 ==> opened(part, places, state.done.len() as int)
    &&& forall|m: int| #[trigger]
        is_last_move(commands, m, n) ==> state.open && state.start == led_to(commands[m])
    &&& n > 0 && part[n - 1] is Close ==> forall|m: int| #[trigger]
        is_last_move(commands, m, n - 1) ==> state.current == led_to(commands[m])
            || state.current.same(led_to(commands[m]))
}

proof fn lemma_moved_in_part(commands: Seq<Command>, n: int, i: int)
    requires
        0 <= i <= n <= commands.len(),
    ensures
        moved_before(commands.take(n), i) <==> moved_before(commands, i),
        forall|m: int| #[trigger]
            is_last_move(commands.take(n), m, i) <==> is_last_move(commands, m, i),
{
    let part = commands.take(n);
    assert(forall|k: int| 0 <= k < n ==> part[k] == #[trigger] commands[k]);
    assert(forall|k: int| 0 <= k < n ==> #[trigger] part[k] == commands[k]);
    if moved_before(part, i) {
        let m = choose|m: int|
            0 <= m < i && #[trigger] part[m] is MoveTo && forall|k: int|
                m < k < i ==> !(#[trigger] part[k] is Close);
        assert(commands[m] is MoveTo);
        assert forall|k: int| m < k < i implies !(#[trigger] commands[k] is Close) by {
            assert(!(part[k] is Close));
        }
    }
    if moved_before(commands, i) {
        let m = choose|m: int|
            0 <= m < i && #[trigger] commands[m] is MoveTo && forall|k: int|
                m < k < i ==> !(#[trigger] commands[k] is Close);
        assert(part[m] is MoveTo);
        assert forall|k: int| m < k < i implies !(#[trigger] part[k] is Close) by {
            assert(!(commands[k] is Close));
        }
    }
    assert forall|m: int| #[trigger] is_last_move(part, m, i) implies is_last_move(
        commands,
        m,
        i,
    ) by {
        assert forall|k: int| m < k < i implies !(#[trigger] commands[k] is MoveTo) && !(
        commands[k] is Close) by {
            assert(part[k] == commands[k]);
        }
    }
    assert forall|m: int| #[trigger] is_last_move(commands, m, i) implies is_last_move(
        part,
        m,
        i,
    ) by {
        assert forall|k: int| m < k < i implies !(#[trigger] part[k] is MoveTo) && !(part[k] is Close) by {
            assert(part[k] == commands[k]);
        }
    }
}

proof fn lemma_last_move(commands: Seq<Command>, m: int, n: int)
    requires
        0 < n <= commands.len(),
        is_last_move(commands, m, n),
    ensures
        m == n - 1 || is_drawing(commands[n - 1]) && is_last_move(commands, m, n - 1),
{
    if m < n - 1 {
        assert(!(commands[n - 1] is MoveTo) && !(commands[n - 1] is Close));
    }
}

proof fn lemma_moved_before(commands: Seq<Command>, n: int)
    requires
        0 < n <= commands.len(),
    ensures
        moved_before(commands, n) <==> commands[n - 1] is MoveTo || !(commands[n - 1] is Close)
            && moved_before(commands, n - 1),
{
    if commands[n - 1] is MoveTo {
        assert(0 <= n - 1 < n && commands[n - 1] is MoveTo);
    } else if moved_before(commands, n) {
        let m = choose|m: int|
            0 <= m < n && #[trigger] commands[m] is MoveTo && forall|k: int|
                m < k < n ==> !(#[trigger] commands[k] is Close);
        assert(m < n - 1);
        assert(!(commands[n - 1] is Close));
    } else if moved_before(commands, n - 1) && !(commands[n - 1] is Close) {
        let m = choose|m: int|
            0 <= m < n - 1 && #[trigger] commands[m] is MoveTo && forall|k: int|
                m < k < n - 1 ==> !(#[trigger] commands[k] is Close);
        assert forall|k: int| m < k < n implies !(#[trigger] commands[k] is Close) by {}
    }
}

proof fn lemma_drawn_right_in_part(commands: Seq<Command>, n: int, i: int, segment: Segment)
    requires
        0 <= i < n <= commands.len(),
    ensures
        drawn_right(commands.take(n), i, segment) <==> drawn_right(commands, i, segment),
{
    reveal(drawn_right);
    let part = commands.take(n);
    assert(part[i] == commands[i]);
    if i > 0 {
        assert(part[i - 1] == commands[i - 1]);
        lemma_moved_in_part(commands, n, i - 1);
        if drawn_right(part, i, segment) && commands[i - 1] is Close {
            assert forall|m: int| #[trigger] is_last_move(commands, m, i - 1) implies segment.start()
                == led_to(commands[m]) || segment.start().same(led_to(commands[m])) by {
                assert(is_last_move(part, m, i - 1));
                assert(part[m] == commands[m]);
            }
        }
        if drawn_right(commands, i, segment) && commands[i - 1] is Close {
            assert forall|m: int| #[trigger] is_last_move(part, m, i - 1) implies segment.start()
                == led_to(part[m]) || segment.start().same(led_to(part[m])) by {
                assert(is_last_move(commands, m, i - 1));
                assert(part[m] == commands[m]);
            }
        }
    }
}

#[verifier::spinoff_prover]
proof fn lemma_ending_shows(
    commands: Seq<Command>,
    n: int,
    state: PathState,
    places: Seq<(int, int)>,
)
    requires
        0 <= n <= commands.len(),
        shown_so_far(commands, n, state, places),
    ensures
        shows(commands.take(n), state.closed().done, places),
        forall|i: int|
            0 <= i < n && is_drawing(#[trigger] commands.take(n)[i]) ==> places[i].0
                < state.closed().done.len(),
{
    let part = commands.take(n);
    let all = state.done.push(state.run);
    let after = state.closed().done;
    let d = state.done.len() as int;
    assert forall|i: int| 0 <= i < part.len() && is_drawing(#[trigger] part[i]) implies {
        &&& is_place(after, places[i])
        &&& after[places[i].0][places[i].1] == all[places[i].0][places[i].1]
    } by {
        assert(is_place(all, places[i]));
        if places[i].0 < d {
            assert(all[places[i].0] == state.done[places[i].0]);
            assert(after[places[i].0] == state.done[places[i].0]);
        }
    }
    assert(accounted(part, after, places)) by {
        reveal(accounted);
        assert forall|k: int, j: int|
            #![trigger after[k][j]]
            is_place(after, (k, j)) implies taken(part, places, k, j) || is_closing(after[k], j)
            && (j > 0 ==> opened(part, places, k)) by {
            if k < d {
                assert(all[k] == state.done[k] && after[k] == state.done[k]);
                let seen = all[k][j];
                assert(is_place(all, (k, j)));
            } else if j < state.run.len() {
                assert(taken(part, places, d, j));
            } else {
                let line = Segment::Line { from: state.current, to: state.start };
                assert(after[k] == state.run.push(line));
                assert(after[k][j] == line);
                assert(after[k][0].start() == state.start);
            }
        }
    }
}

#[verifier::spinoff_prover]
proof fn lemma_step_draws(
    commands: Seq<Command>,
    n: int,
    state: PathState,
    places: Seq<(int, int)>,
) -> (more: Seq<(int, int)>)
    requires
        0 <= n < commands.len(),
        is_drawing(commands[n]),
        shown_so_far(commands, n, state, places),
    ensures
        shown_so_far(commands, n + 1, state.stepped(commands[n]), more),
{
    let command = commands[n];
    let part = commands.take(n);
    let longer = commands.take(n + 1);
    let next = (state.done.len() as int, state.run.len() as int);
    let more = places.push(next);
    let after = state.stepped(command);
    let all = state.done.push(state.run);
    let now = after.done.push(after.run);
    lemma_longer(commands, n, places, next);
    lemma_moved_before(commands, n + 1);
    let segment = after.run.last();
    assert(now[next.0][next.1] == segment);
    assert(drawn_right(commands, n, segment)) by {
        reveal(drawn_right);
        if n > 0 {
            assert(part[n - 1] == commands[n - 1]);
        }
    }
    lemma_drawn_right_in_part(commands, n + 1, n, segment);
    assert forall|i: int| 0 <= i < longer.len() && is_drawing(#[trigger] longer[i]) implies is_place(
        now,
        more[i],
    ) && drawn_right(longer, i, now[more[i].0][more[i].1]) by {
        if i < n {
            assert(is_drawing(part[i]));
            assert(is_place(all, places[i]));
            if places[i].0 < state.done.len() {
                assert(now[places[i].0] == all[places[i].0]);
            }
            assert(now[more[i].0][more[i].1] == all[places[i].0][places[i].1]);
            lemma_drawn_right_in_part(commands, n, i, now[more[i].0][more[i].1]);
            lemma_drawn_right_in_part(commands, n + 1, i, now[more[i].0][more[i].1]);
        }
    }
    assert(longer[n] == command && more[n] == next);
    assert(taken(longer, more, next.0, next.1));
    assert(in_order(longer, more)) by {
        reveal(in_order);
        assert forall|a: int, b: int|
            0 <= a < b < longer.len() && is_drawing(#[trigger] longer[a]) && is_drawing(
                #[trigger] longer[b],
            ) implies earlier(more[a], more[b]) by {
            assert(is_drawing(part[a]));
            if b < n {
                assert(is_drawing(part[b]));
            }
        }
        assert forall|a: int, m: int, b: int|
            0 <= a < m < b < longer.len() && is_drawing(#[trigger] longer[a]) && !is_drawing(
                #[trigger] longer[m],
            ) && is_drawing(#[trigger] longer[b]) implies more[a].0 < more[b].0 by {
            assert(is_drawing(part[a]) && !is_drawing(part[m]));
            if b < n {
                assert(is_drawing(part[b]));
            }
        }
        assert forall|a: int, b: int|
            0 <= a < longer.len() && b == a + 1 && b < longer.len() && is_drawing(
                #[trigger] longer[a],
            ) && is_drawing(#[trigger] longer[b]) implies more[b] == (more[a].0, more[a].1 + 1) by {
            assert(is_drawing(part[a]));
            if b < n {
                assert(is_drawing(part[b]));
            }
        }
    }
    assert(accounted(longer, now, more)) by {
        reveal(accounted);
        assert forall|k: int, j: int|
            #![trigger now[k][j]]
            is_place(now, (k, j)) implies taken(longer, more, k, j) || is_closing(now[k], j) && (j > 0
            ==> opened(longer, more, k)) by {
            if k < state.done.len() {
                assert(now[k] == all[k]);
                let seen = all[k][j];
                assert(is_place(all, (k, j)));
            } else if j < state.run.len() {
                assert(taken(part, places, k, j));
            }
        }
    }
    assert forall|j: int| 0 <= j < after.run.len() implies #[trigger] taken(
        longer,
        more,
        after.done.len() as int,
        j,
    ) by {
        if j < state.run.len() {
            assert(taken(part, places, state.done.len() as int, j));
        }
    }
    assert forall|i: int| 0 <= i < n + 1 && is_drawing(#[trigger] longer[i]) implies earlier(
        more[i],
        (after.done.len() as int, after.run.len() as int),
    ) by {
        if i < n {
            assert(is_drawing(part[i]));
        }
    }
    assert forall|a: int, m: int|
        0 <= a < m < n + 1 && is_drawing(#[trigger] longer[a]) && !is_drawing(
            #[trigger] longer[m],
        ) implies more[a].0 < after.done.len() by {
        assert(is_drawing(part[a]) && !is_drawing(part[m]));
    }
    assert forall|m: int| #[trigger] is_last_move(commands, m, n + 1) implies after.open
        && after.start == led_to(commands[m]) by {
        lemma_last_move(commands, m, n + 1);
    }
    if after.open && state.run.len() == 0 {
        lemma_moved_in_part(commands, n + 1, n);
        assert(moved_before(longer, n));
        assert(opened(longer, more, after.done.len() as int));
    }
    more
}

#[verifier::spinoff_prover]
proof fn lemma_longer(commands: Seq<Command>, n: int, places: Seq<(int, int)>, next: (int, int))
    requires
        0 <= n < commands.len(),
        places.len() == n,
    ensures
        commands.take(n + 1) == commands.take(n).push(commands[n]),
        forall|i: int| 0 <= i < n ==> #[trigger] commands.take(n + 1)[i] == commands.take(n)[i],
        forall|k: int, j: int| #[trigger]
            taken(commands.take(n), places, k, j) ==> taken(
                commands.take(n + 1),
                places.push(next),
                k,
                j,
            ),
        forall|k: int| #[trigger]
            opened(commands.take(n), places, k) ==> opened(
                commands.take(n + 1),
                places.push(next),
                k,
            ),
{
    let part = commands.take(n);
    let longer = commands.take(n + 1);
    let more = places.push(next);
    assert(longer =~= part.push(commands[n]));
    assert forall|k: int, j: int| #[trigger] taken(part, places, k, j) implies taken(
        longer,
        more,
        k,
        j,
    ) by {
        let i = choose|i: int|
            0 <= i < part.len() && is_drawing(#[trigger] part[i]) && places[i] == (k, j);
        assert(longer[i] == part[i] && more[i] == places[i]);
    }
    assert forall|k: int| #[trigger] opened(part, places, k) implies opened(longer, more, k) by {
        let i = choose|i: int|
            0 <= i < part.len() && is_drawing(#[trigger] part[i]) && places[i] == (k, 0int)
                && moved_before(part, i);
        assert(longer[i] == part[i] && more[i] == places[i]);
        lemma_moved_in_part(commands, n, i);
        lemma_moved_in_part(commands, n + 1, i);
    }
}

#[verifier::spinoff_prover]
proof fn lemma_step_ends(
    commands: Seq<Command>,
    n: int,
    state: PathState,
    places: Seq<(int, int)>,
) -> (more: Seq<(int, int)>)
    requires
        0 <= n < commands.len(),
        !is_drawing(commands[n]),
        shown_so_far(commands, n, state, places),
    ensures
        shown_so_far(commands, n + 1, state.stepped(commands[n]), more),
{
    let command = commands[n];
    let part = commands.take(n);
    let longer = commands.take(n + 1);
    let next = (state.done.len() as int, state.run.len() as int);
    let more = places.push(next);
    let after = state.stepped(command);
    let ended = state.closed().done;
    let now = after.done.push(after.run);
    lemma_longer(commands, n, places, next);
    lemma_moved_before(commands, n + 1);
    lemma_ending_shows(commands, n, state, places);
    assert(longer[n] == command);
    assert forall|i: int| 0 <= i < longer.len() && is_drawing(#[trigger] longer[i]) implies is_place(
        now,
        more[i],
    ) && drawn_right(longer, i, now[more[i].0][more[i].1]) && more[i].0 < after.done.len() by {
        assert(i < n);
        assert(is_drawing(part[i]));
        assert(is_place(ended, places[i]));
        assert(now[more[i].0] == ended[places[i].0]);
        lemma_drawn_right_in_part(commands, n, i, now[more[i].0][more[i].1]);
        lemma_drawn_right_in_part(commands, n + 1, i, now[more[i].0][more[i].1]);
    }
    assert(in_order(longer, more)) by {
        reveal(in_order);
        assert forall|a: int, b: int|
            0 <= a < b < longer.len() && is_drawing(#[trigger] longer[a]) && is_drawing(
                #[trigger] longer[b],
            ) implies earlier(more[a], more[b]) by {
            assert(is_drawing(part[a]) && is_drawing(part[b]));
        }
        assert forall|a: int, m: int, b: int|
            0 <= a < m < b < longer.len() && is_drawing(#[trigger] longer[a]) && !is_drawing(
                #[trigger] longer[m],
            ) && is_drawing(#[trigger] longer[b]) implies more[a].0 < more[b].0 by {
            assert(is_drawing(part[a]) && !is_drawing(part[m]) && is_drawing(part[b]));
        }
        assert forall|a: int, b: int|
            0 <= a < longer.len() && b == a + 1 && b < longer.len() && is_drawing(
                #[trigger] longer[a],
            ) && is_drawing(#[trigger] longer[b]) implies more[b] == (more[a].0, more[a].1 + 1) by {
            assert(is_drawing(part[a]) && is_drawing(part[b]));
        }
    }
    assert(accounted(longer, now, more)) by {
        reveal(accounted);
        assert forall|k: int, j: int|
            #![trigger now[k][j]]
            is_place(now, (k, j)) implies taken(longer, more, k, j) || is_closing(now[k], j) && (j > 0
            ==> opened(longer, more, k)) by {
            assert(k < ended.len());
            assert(now[k] == ended[k]);
            let seen = ended[k][j];
            assert(is_place(ended, (k, j)));
        }
    }
    assert forall|m: int| #[trigger] is_last_move(commands, m, n + 1) implies after.open
        && after.start == led_to(commands[m]) by {
        lemma_last_move(commands, m, n + 1);
    }
    more
}

#[verifier::spinoff_prover]
proof fn lemma_shown(commands: Seq<Command>, n: int) -> (places: Seq<(int, int)>)
    requires
        0 <= n <= commands.len(),
    ensures
        shown_so_far(commands, n, path_after(commands, n), places),
    decreases n,
{
    if n == 0 {
        let places = Seq::<(int, int)>::empty();
        let part = commands.take(0);
        assert(forall|m: int| !#[trigger] is_last_move(commands, m, 0));
        assert(part =~= Seq::empty());
        let all = path_after(commands, 0).done.push(path_after(commands, 0).run);
        assert(all[0].len() == 0);
        reveal(in_order);
        reveal(accounted);
        places
    } else {
        let before = lemma_shown(commands, n - 1);
        if is_drawing(commands[n - 1]) {
            lemma_step_draws(commands, n - 1, path_after(commands, n - 1), before)
        } else {
            lemma_step_ends(commands, n - 1, path_after(commands, n - 1), before)
        }
    }
}

/// The outline is the one that the commands draw: the contours show them, one segment for
/// each drawing command, with its own points, and nothing besides but the lines that close a
/// contour.
pub proof fn lemma_contours_show_commands(commands: Seq<Command>)
    ensures
        exists|places: Seq<(int, int)>| #[trigger]
            shows(commands, contours_of(commands), places),
{
    let n = commands.len() as int;
    let places = lemma_shown(commands, n);
    lemma_ending_shows(commands, n, path_after(commands, n), places);
    assert(commands.take(n) =~= commands);
    assert(shows(commands, contours_of(commands), places));
}

spec fn contours_sound(state: PathState, shut: bool) -> bool {
    &&& forall|k: int|
        0 <= k < state.done.len() ==> (#[trigger] state.done[k]).len() > 0 && chained(state.done[k])
            && (shut ==> is_closed(state.done[k]))
    &&& chained(state.run)
    &&& state.run.len() > 0 ==> state.run.last().end() == state.current
    &&& shut && state.run.len() > 0 ==> state.open && state.run[0].start() == state.start
    &&& shut && state.run.len() == 0 && state.open ==> state.current == state.start
}

proof fn lemma_drawn(state: PathState, segment: Segment, shut: bool)
    requires
        contours_sound(state, shut),
        segment.start() == state.current,
        shut ==> state.open,
    ensures
        contours_sound(state.drawn(segment), shut),
{
    let after = state.drawn(segment);
    assert forall|i: int| 0 <= i && i + 1 < after.run.len() implies #[trigger] carries_on(
        after.run,
        i,
    ) by {
        if i + 1 < state.run.len() {
            assert(carries_on(state.run, i));
        }
    }
}

proof fn lemma_closed(state: PathState, shut: bool)
    requires
        contours_sound(state, shut),
    ensures
        contours_sound(state.closed(), shut),
        state.closed().run.len() == 0,
        !state.closed().open,
{
    let back = if state.open && !state.current.same(state.start) {
        lemma_drawn(state, Segment::Line { from: state.current, to: state.start }, shut);
        state.drawn(Segment::Line { from: state.current, to: state.start })
    } else {
        state
    };
    let after = state.closed();
    assert forall|k: int| 0 <= k < after.done.len() implies (#[trigger] after.done[k]).len() > 0
        && chained(after.done[k]) && (shut ==> is_closed(after.done[k])) by {
        if k < state.done.len() {
            assert(after.done[k] == state.done[k]);
        } else {
            assert(after.done[k] == back.run);
        }
    }
}

proof fn lemma_path_sound(commands: Seq<Command>, n: int, shut: bool)
    requires
        0 <= n <= commands.len(),
        shut ==> moves_first(commands),
    ensures
        contours_sound(path_after(commands, n), shut),
    decreases n,
{
    if n > 0 {
        lemma_path_sound(commands, n - 1, shut);
        let state = path_after(commands, n - 1);
        lemma_closed(state, shut);
        if shut && is_drawing(commands[n - 1]) {
            let places = lemma_shown(commands, n - 1);
            assert(state.open);
        }
        match commands[n - 1] {
            Command::MoveTo(p) => {},
            Command::LineTo(p) => lemma_drawn(
                state,
                Segment::Line { from: state.current, to: p },
                shut,
            ),
            Command::QuadTo(c, p) => lemma_drawn(
                state,
                Segment::Quad { from: state.current, control: c, to: p },
                shut,
            ),
            Command::CurveTo(c, d, p) => lemma_drawn(
                state,
                Segment::Cubic { from: state.current, first: c, second: d, to: p },
                shut,
            ),
            Command::Close => {},
        }
    }
}

/// No contour is empty, and within a contour every segment starts at the very point where
/// the one before ends, so that a point shared by two segments is one point.
pub proof fn lemma_contours_chain(commands: Seq<Command>)
    ensures
        forall|k: int|
            0 <= k < contours_of(commands).len() ==> (#[trigger] contours_of(commands)[k]).len() > 0
                && chained(contours_of(commands)[k]),
{
    lemma_path_sound(commands, commands.len() as int, false);
    lemma_closed(path_after(commands, commands.len() as int), false);
}

/// Every contour of a path that moves before it draws ends where it starts.
pub proof fn lemma_contours_close(commands: Seq<Command>)
    requires
        moves_first(commands),
    ensures
        forall|k: int|
            0 <= k < contours_of(commands).len() ==> is_closed(#[trigger] contours_of(commands)[k]),
{
    lemma_path_sound(commands, commands.len() as int, true);
    lemma_closed(path_after(commands, commands.len() as int), true);
}

/// Draws a path as contours.
struct Flattener {
    done: Vec<Vec<Segment>>,
    run: Vec<Segment>,
    start: Point,
    current: Point,
    open: bool,
}

/// The segments of each contour.
pub open spec fn contour_views(contours: Seq<Vec<Segment>>) -> Seq<Seq<Segment>> {
    Seq::new(contours.len(), |i: int| contours[i]@)
}

impl View for Flattener {
    type V = PathState;

    closed spec fn view(&self) -> PathState {
        PathState {
            done: contour_views(self.done@),
            run: self.run@,
            start: self.start,
            current: self.current,
            open: self.open,
        }
    }
}

impl Flattener {
    fn new() -> (flat: Flattener)
        ensures
            flat@ == PathState::fresh(),
    {
        let flat = Flattener {
            done: Vec::new(),
            run: Vec::new(),
            start: Point { x: 0, y: 0 },
            current: Point { x: 0, y: 0 },
            open: false,
        };
        assert(flat@.done =~= Seq::empty());
        assert(flat@.run =~= Seq::empty());
        flat
    }

    fn push(&mut self, segment: Segment, to: Point)
        requires
            to == segment.end(),
        ensures
            final(self)@ == old(self)@.drawn(segment),
    {
        self.run.push(segment);
        self.current = to;
        assert(self@.run =~= old(self)@.drawn(segment).run);
    }

    fn move_to(&mut self, p: Point)
        ensures
            final(self)@ == old(self)@.stepped(Command::MoveTo(p)),
    {
        self.close();
        self.start = p;
        self.current = p;
        self.open = true;
    }

    fn line_to(&mut self, p: Point)
        ensures
            final(self)@ == old(self)@.stepped(Command::LineTo(p)),
    {
        self.push(Segment::Line { from: self.current, to: p }, p);
    }

    fn quad_to(&mut self, c: Point, p: Point)
        ensures
            final(self)@ == old(self)@.stepped(Command::QuadTo(c, p)),
    {
        self.push(Segment::Quad { from: self.current, control: c, to: p }, p);
    }

    fn cubic_to(&mut self, c: Point, d: Point, p: Point)
        ensures
            final(self)@ == old(self)@.stepped(Command::CurveTo(c, d, p)),
    {
        self.push(Segment::Cubic { from: self.current, first: c, second: d, to: p }, p);
    }

    fn close(&mut self)
        ensures
            final(self)@ == old(self)@.closed(),
    {
        if self.open && !self.current.is_same(self.start) {
            self.line_to(self.start);
        }
        let ghost back = self@;
        self.open = false;
        if self.run.len() > 0 {
            let mut run: Vec<Segment> = Vec::new();
            std::mem::swap(&mut run, &mut self.run);
            self.done.push(run);
            assert(self@.done =~= back.done.push(back.run));
            assert(self@.run =~= Seq::empty());
        } else {
            assert(self@.run =~= Seq::empty());
        }
    }
}

/// Divides a path into contours. An unterminated contour is closed by the next move or the
/// end of the path.
pub fn flatten(commands: &Vec<Command>) -> (contours: Vec<Vec<Segment>>)
    ensures
        contour_views(contours@) == contours_of(commands@),
{
    let mut flat = Flattener::new();
    let mut i: usize = 0;
    while i < commands.len()
        invariant
            i <= commands@.len(),
            flat@ == path_after(commands@, i as int),
        decreases commands@.len() - i,
    {
        match commands[i] {
            Command::MoveTo(p) => flat.move_to(p),
            Command::LineTo(p) => flat.line_to(p),
            Command::QuadTo(c, p) => flat.quad_to(c, p),
            Command::CurveTo(c, d, p) => flat.cubic_to(c, d, p),
            Command::Close => flat.close(),
        }
        i = i + 1;
    }
    flat.close();
    flat.done
}

/// Quadratics of the first `n` segments of a contour.
pub open spec fn pieces_of(contour: Seq<Segment>, n: int) -> int
    decreases n,
{
    if n <= 0 {
        0
    } else {
        pieces_of(contour, n - 1) + contour[n - 1].pieces()
    }
}

proof fn lemma_pieces(contour: Seq<Segment>, n: int)
    requires
        0 <= n,
    ensures
        n <= pieces_of(contour, n) <= 4 * n,
    decreases n,
{
    if n > 0 {
        lemma_pieces(contour, n - 1);
    }
}

/// The number of quadratics of each contour, in order.
pub fn contour_counts(contours: &Vec<Vec<Segment>>) -> (counts: Vec<u32>)
    requires
        forall|k: int| 0 <= k < contours@.len() ==> 4 * (#[trigger] contours@[k])@.len() <= u32::MAX,
    ensures
        counts@.len() == contours@.len(),
        forall|k: int|
            0 <= k < contours@.len() ==> (#[trigger] counts@[k]) == pieces_of(
                contours@[k]@,
                contours@[k]@.len() as int,
            ),
{
    let mut counts: Vec<u32> = Vec::new();
    let mut k: usize = 0;
    while k < contours.len()
        invariant
            k <= contours@.len(),
            counts@.len() == k,
            forall|k: int|
                0 <= k < contours@.len() ==> 4 * (#[trigger] contours@[k])@.len() <= u32::MAX,
            forall|m: int|
                0 <= m < k ==> (#[trigger] counts@[m]) == pieces_of(
                    contours@[m]@,
                    contours@[m]@.len() as int,
                ),
        decreases contours@.len() - k,
    {
        let contour: &Vec<Segment> = &contours[k];
        assert(4 * contours@[k as int]@.len() <= u32::MAX);
        let mut n: u32 = 0;
        let mut i: usize = 0;
        while i < contour.len()
            invariant
                i <= contour@.len(),
                4 * contour@.len() <= u32::MAX,
                n == pieces_of(contour@, i as int),
            decreases contour@.len() - i,
        {
            proof {
                lemma_pieces(contour@, i + 1);
            }
            n = n + contour[i].quadratics();
            i = i + 1;
        }
        counts.push(n);
        k = k + 1;
    }
    counts
}

/// The cubics among the first `n` segments of a contour.
pub open spec fn cubics_in(contour: Seq<Segment>, n: int) -> int
    decreases n,
{
    if n <= 0 {
        0
    } else if contour[n - 1] is Cubic {
        cubics_in(contour, n - 1) + 1
    } else {
        cubics_in(contour, n - 1)
    }
}

/// A line and a quadratic count as one quadratic each, and a cubic as four.
pub proof fn lemma_pieces_counted(contour: Seq<Segment>, n: int)
    requires
        0 <= n <= contour.len(),
    ensures
        pieces_of(contour, n) == n + 3 * cubics_in(contour, n),
        0 <= cubics_in(contour, n) <= n,
    decreases n,
{
    if n > 0 {
        lemma_pieces_counted(contour, n - 1);
    }
}

} // verus!
