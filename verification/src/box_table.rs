//! Which arms each box-drawing character has.

use vstd::prelude::*;
use self::Stroke::Absent as N;
use self::Stroke::Double as D;
use self::Stroke::Heavy as H;
use self::Stroke::Light as L;

verus! {

/// An arm of a box-drawing character.
#[derive(Clone, Copy, Debug, PartialEq, Eq, Structural)]
pub enum Stroke {
    Absent,
    Light,
    Heavy,
    Double,
}

pub const UP: usize = 0;

pub const RIGHT: usize = 1;

pub const DOWN: usize = 2;

pub const LEFT: usize = 3;

impl Stroke {
    /// The heavier of two arms.
    pub open spec fn heavier(self, other: Stroke) -> Stroke {
        if other == Stroke::Heavy || self == Stroke::Absent {
            other
        } else {
            self
        }
    }

    /// The heavier of two arms, for the characters whose two collinear arms differ: these
    /// draw one bar at the thicker weight.
    pub fn max_stroke(self, other: Stroke) -> (stroke: Stroke)
        ensures
            stroke == self.heavier(other),
    {
        if other == Stroke::Heavy || self == Stroke::Absent {
            other
        } else {
            self
        }
    }
}

/// Every box-drawing character's arms, as up, right, down, left, indexed by the code
/// point less 0x2500. The dashed characters carry the arms of the solid line they
/// dash, and the diagonals U+2571 to U+2573 have no arms at all.
///
/// The four arcs U+256D to U+2570 are drawn as their sharp-cornered equivalents: a
/// quarter circle is not a rectangle, and at cell sizes the difference is one pixel
/// of the corner.
pub const BOX_ARMS: [[Stroke; 4]; 128] = [
    [N, L, N, L], // ─ 2500 light horizontal
    [N, H, N, H], // ━ 2501 heavy horizontal
    [L, N, L, N], // │ 2502 light vertical
    [H, N, H, N], // ┃ 2503 heavy vertical
    [N, L, N, L], // ┄ 2504 light triple dash horizontal
    [N, H, N, H], // ┅ 2505 heavy triple dash horizontal
    [L, N, L, N], // ┆ 2506 light triple dash vertical
    [H, N, H, N], // ┇ 2507 heavy triple dash vertical
    [N, L, N, L], // ┈ 2508 light quadruple dash horizontal
    [N, H, N, H], // ┉ 2509 heavy quadruple dash horizontal
    [L, N, L, N], // ┊ 250A light quadruple dash vertical
    [H, N, H, N], // ┋ 250B heavy quadruple dash vertical
    [N, L, L, N], // ┌ 250C light down and right
    [N, H, L, N], // ┍ 250D down light and right heavy
    [N, L, H, N], // ┎ 250E down heavy and right light
    [N, H, H, N], // ┏ 250F heavy down and right
    [N, N, L, L], // ┐ 2510 light down and left
    [N, N, L, H], // ┑ 2511 down light and left heavy
    [N, N, H, L], // ┒ 2512 down heavy and left light
    [N, N, H, H], // ┓ 2513 heavy down and left
    [L, L, N, N], // └ 2514 light up and right
    [L, H, N, N], // ┕ 2515 up light and right heavy
    [H, L, N, N], // ┖ 2516 up heavy and right light
    [H, H, N, N], // ┗ 2517 heavy up and right
    [L, N, N, L], // ┘ 2518 light up and left
    [L, N, N, H], // ┙ 2519 up light and left heavy
    [H, N, N, L], // ┚ 251A up heavy and left light
    [H, N, N, H], // ┛ 251B heavy up and left
    [L, L, L, N], // ├ 251C light vertical and right
    [L, H, L, N], // ┝ 251D vertical light and right heavy
    [H, L, L, N], // ┞ 251E up heavy and right down light
    [L, L, H, N], // ┟ 251F down heavy and right up light
    [H, L, H, N], // ┠ 2520 vertical heavy and right light
    [H, H, L, N], // ┡ 2521 down light and right up heavy
    [L, H, H, N], // ┢ 2522 up light and right down heavy
    [H, H, H, N], // ┣ 2523 heavy vertical and right
    [L, N, L, L], // ┤ 2524 light vertical and left
    [L, N, L, H], // ┥ 2525 vertical light and left heavy
    [H, N, L, L], // ┦ 2526 up heavy and left down light
    [L, N, H, L], // ┧ 2527 down heavy and left up light
    [H, N, H, L], // ┨ 2528 vertical heavy and left light
    [H, N, L, H], // ┩ 2529 down light and left up heavy
    [L, N, H, H], // ┪ 252A up light and left down heavy
    [H, N, H, H], // ┫ 252B heavy vertical and left
    [N, L, L, L], // ┬ 252C light down and horizontal
    [N, L, L, H], // ┭ 252D left heavy and right down light
    [N, H, L, L], // ┮ 252E right heavy and left down light
    [N, H, L, H], // ┯ 252F down light and horizontal heavy
    [N, L, H, L], // ┰ 2530 down heavy and horizontal light
    [N, L, H, H], // ┱ 2531 right light and left down heavy
    [N, H, H, L], // ┲ 2532 left light and right down heavy
    [N, H, H, H], // ┳ 2533 heavy down and horizontal
    [L, L, N, L], // ┴ 2534 light up and horizontal
    [L, L, N, H], // ┵ 2535 left heavy and right up light
    [L, H, N, L], // ┶ 2536 right heavy and left up light
    [L, H, N, H], // ┷ 2537 up light and horizontal heavy
    [H, L, N, L], // ┸ 2538 up heavy and horizontal light
    [H, L, N, H], // ┹ 2539 right light and left up heavy
    [H, H, N, L], // ┺ 253A left light and right up heavy
    [H, H, N, H], // ┻ 253B heavy up and horizontal
    [L, L, L, L], // ┼ 253C light vertical and horizontal
    [L, L, L, H], // ┽ 253D left heavy and right vertical light
    [L, H, L, L], // ┾ 253E right heavy and left vertical light
    [L, H, L, H], // ┿ 253F vertical light and horizontal heavy
    [H, L, L, L], // ╀ 2540 up heavy and down horizontal light
    [L, L, H, L], // ╁ 2541 down heavy and up horizontal light
    [H, L, H, L], // ╂ 2542 vertical heavy and horizontal light
    [H, L, L, H], // ╃ 2543 left up heavy and right down light
    [H, H, L, L], // ╄ 2544 right up heavy and left down light
    [L, L, H, H], // ╅ 2545 left down heavy and right up light
    [L, H, H, L], // ╆ 2546 right down heavy and left up light
    [H, H, L, H], // ╇ 2547 down light and up horizontal heavy
    [L, H, H, H], // ╈ 2548 up light and down horizontal heavy
    [H, L, H, H], // ╉ 2549 right light and left vertical heavy
    [H, H, H, L], // ╊ 254A left light and right vertical heavy
    [H, H, H, H], // ╋ 254B heavy vertical and horizontal
    [N, L, N, L], // ╌ 254C light double dash horizontal
    [N, H, N, H], // ╍ 254D heavy double dash horizontal
    [L, N, L, N], // ╎ 254E light double dash vertical
    [H, N, H, N], // ╏ 254F heavy double dash vertical
    [N, D, N, D], // ═ 2550 double horizontal
    [D, N, D, N], // ║ 2551 double vertical
    [N, D, L, N], // ╒ 2552 down single and right double
    [N, L, D, N], // ╓ 2553 down double and right single
    [N, D, D, N], // ╔ 2554 double down and right
    [N, N, L, D], // ╕ 2555 down single and left double
    [N, N, D, L], // ╖ 2556 down double and left single
    [N, N, D, D], // ╗ 2557 double down and left
    [L, D, N, N], // ╘ 2558 up single and right double
    [D, L, N, N], // ╙ 2559 up double and right single
    [D, D, N, N], // ╚ 255A double up and right
    [L, N, N, D], // ╛ 255B up single and left double
    [D, N, N, L], // ╜ 255C up double and left single
    [D, N, N, D], // ╝ 255D double up and left
    [L, D, L, N], // ╞ 255E vertical single and right double
    [D, L, D, N], // ╟ 255F vertical double and right single
    [D, D, D, N], // ╠ 2560 double vertical and right
    [L, N, L, D], // ╡ 2561 vertical single and left double
    [D, N, D, L], // ╢ 2562 vertical double and left single
    [D, N, D, D], // ╣ 2563 double vertical and left
    [N, D, L, D], // ╤ 2564 down single and horizontal double
    [N, L, D, L], // ╥ 2565 down double and horizontal single
    [N, D, D, D], // ╦ 2566 double down and horizontal
    [L, D, N, D], // ╧ 2567 up single and horizontal double
    [D, L, N, L], // ╨ 2568 up double and horizontal single
    [D, D, N, D], // ╩ 2569 double up and horizontal
    [L, D, L, D], // ╪ 256A vertical single and horizontal double
    [D, L, D, L], // ╫ 256B vertical double and horizontal single
    [D, D, D, D], // ╬ 256C double vertical and horizontal
    [N, L, L, N], // ╭ 256D light arc down and right
    [N, N, L, L], // ╮ 256E light arc down and left
    [L, N, N, L], // ╯ 256F light arc up and left
    [L, L, N, N], // ╰ 2570 light arc up and right
    [N, N, N, N], // ╱ 2571 light diagonal upper right to lower left
    [N, N, N, N], // ╲ 2572 light diagonal upper left to lower right
    [N, N, N, N], // ╳ 2573 light diagonal cross
    [N, N, N, L], // ╴ 2574 light left
    [L, N, N, N], // ╵ 2575 light up
    [N, L, N, N], // ╶ 2576 light right
    [N, N, L, N], // ╷ 2577 light down
    [N, N, N, H], // ╸ 2578 heavy left
    [H, N, N, N], // ╹ 2579 heavy up
    [N, H, N, N], // ╺ 257A heavy right
    [N, N, H, N], // ╻ 257B heavy down
    [N, H, N, L], // ╼ 257C light left and heavy right
    [L, N, H, N], // ╽ 257D light up and heavy down
    [N, L, N, H], // ╾ 257E heavy left and light right
    [H, N, L, N], // ╿ 257F heavy up and light down
];

/// The arms of a box-drawing character.
#[verifier::opaque]
pub open spec fn arms_of(cp: int) -> Seq<Stroke> {
    BOX_ARMS[cp - 0x2500]@
}

/// The arms of a box-drawing character, looked up.
pub fn arms_at(cp: u32) -> (arms: [Stroke; 4])
    requires
        0x2500 <= cp <= 0x257F,
    ensures
        arms@ == arms_of(cp as int),
{
    proof {
        reveal(arms_of);
    }
    BOX_ARMS[(cp - 0x2500) as usize]
}

/// Dashes of a dashed character.
pub open spec fn dashes_of(cp: int) -> Option<int> {
    if 0x2504 <= cp <= 0x2507 {
        Some(3)
    } else if 0x2508 <= cp <= 0x250B {
        Some(4)
    } else if 0x254C <= cp <= 0x254F {
        Some(2)
    } else {
        None
    }
}

/// Dashes in U+2504 to U+250B (triple, quadruple) and U+254C to U+254F (double).
pub fn dash_count(cp: u32) -> (count: Option<usize>)
    ensures
        count is Some <==> dashes_of(cp as int) is Some,
        count matches Some(n) ==> dashes_of(cp as int) == Some(n as int) && 2 <= n <= 4,
{
    if 0x2504 <= cp && cp <= 0x2507 {
        Some(3)
    } else if 0x2508 <= cp && cp <= 0x250B {
        Some(4)
    } else if 0x254C <= cp && cp <= 0x254F {
        Some(2)
    } else {
        None
    }
}

/// A dashed character has an arm to dash.
pub proof fn lemma_dashed_arms(cp: int)
    requires
        0x2500 <= cp <= 0x257F,
        dashes_of(cp) is Some,
    ensures
        arms_of(cp)[RIGHT as int].heavier(arms_of(cp)[UP as int]) != Stroke::Absent,
{
    reveal(arms_of);
}

/// A box-drawing character has four arms, absent ones counted.
pub proof fn lemma_arms_len(cp: int)
    requires
        0x2500 <= cp <= 0x257F,
    ensures
        arms_of(cp).len() == 4,
{
    reveal(arms_of);
}

/// The one character is the other, seen in a mirror that stands upright.
pub open spec fn mirrors(a: int, b: int) -> bool {
    &&& arms_of(a)[UP as int] == arms_of(b)[UP as int]
    &&& arms_of(a)[DOWN as int] == arms_of(b)[DOWN as int]
    &&& arms_of(a)[LEFT as int] == arms_of(b)[RIGHT as int]
    &&& arms_of(a)[RIGHT as int] == arms_of(b)[LEFT as int]
}

/// The one character is the other, seen upside down.
pub open spec fn flips(a: int, b: int) -> bool {
    &&& arms_of(a)[UP as int] == arms_of(b)[DOWN as int]
    &&& arms_of(a)[DOWN as int] == arms_of(b)[UP as int]
    &&& arms_of(a)[LEFT as int] == arms_of(b)[LEFT as int]
    &&& arms_of(a)[RIGHT as int] == arms_of(b)[RIGHT as int]
}

/// Corners and tees that face left are those that face right in a mirror, and those that
/// face up are those that face down upside down, weight by weight.
pub proof fn lemma_table_mirrors(cp: int)
    ensures
        0x250C <= cp <= 0x250F || 0x2514 <= cp <= 0x2517 ==> mirrors(cp, cp + 4),
        0x251C <= cp <= 0x2523 ==> mirrors(cp, cp + 8),
        0x250C <= cp <= 0x2513 || 0x252C <= cp <= 0x2533 ==> flips(cp, cp + 8),
        0x2552 <= cp <= 0x2554 || 0x2558 <= cp <= 0x255A || 0x255E <= cp <= 0x2560 ==> mirrors(
            cp,
            cp + 3,
        ),
        0x2552 <= cp <= 0x2557 ==> flips(cp, cp + 6),
        0x2564 <= cp <= 0x2566 ==> flips(cp, cp + 3),
        0x256A <= cp <= 0x256C ==> mirrors(cp, cp) && flips(cp, cp),
{
    reveal(arms_of);
}

/// The arm is there.
pub open spec fn has_arm(cp: int, dir: usize) -> bool {
    arms_of(cp)[dir as int] != Stroke::Absent
}

/// Which arms a character has goes by its group: lines have two opposite ones, corners two
/// at an angle, tees three and crosses all four, and the half lines one.
pub proof fn lemma_table_groups(cp: int)
    ensures
        cp == 0x2500 || cp == 0x2501 || cp == 0x2504 || cp == 0x2505 || cp == 0x2508 || cp
            == 0x2509 || cp == 0x254C || cp == 0x254D || cp == 0x2550 || cp == 0x257C || cp
            == 0x257E ==> !has_arm(cp, UP) && has_arm(cp, RIGHT) && !has_arm(cp, DOWN) && has_arm(
            cp,
            LEFT,
        ),
        cp == 0x2502 || cp == 0x2503 || cp == 0x2506 || cp == 0x2507 || cp == 0x250A || cp
            == 0x250B || cp == 0x254E || cp == 0x254F || cp == 0x2551 || cp == 0x257D || cp
            == 0x257F ==> has_arm(cp, UP) && !has_arm(cp, RIGHT) && has_arm(cp, DOWN) && !has_arm(
            cp,
            LEFT,
        ),
        0x250C <= cp <= 0x250F || 0x2552 <= cp <= 0x2554 || cp == 0x256D ==> !has_arm(cp, UP)
            && has_arm(cp, RIGHT) && has_arm(cp, DOWN) && !has_arm(cp, LEFT),
        cp == 0x256E ==> !has_arm(cp, UP) && !has_arm(cp, RIGHT) && has_arm(cp, DOWN) && has_arm(
            cp,
            LEFT,
        ),
        cp == 0x256F ==> has_arm(cp, UP) && !has_arm(cp, RIGHT) && !has_arm(cp, DOWN) && has_arm(
            cp,
            LEFT,
        ),
        cp == 0x2570 ==> has_arm(cp, UP) && has_arm(cp, RIGHT) && !has_arm(cp, DOWN) && !has_arm(
            cp,
            LEFT,
        ),
        0x251C <= cp <= 0x2523 || 0x255E <= cp <= 0x2560 ==> has_arm(cp, UP) && has_arm(cp, RIGHT)
            && has_arm(cp, DOWN) && !has_arm(cp, LEFT),
        0x252C <= cp <= 0x2533 || 0x2564 <= cp <= 0x2566 ==> !has_arm(cp, UP) && has_arm(cp, RIGHT)
            && has_arm(cp, DOWN) && has_arm(cp, LEFT),
        0x253C <= cp <= 0x254B || 0x256A <= cp <= 0x256C ==> has_arm(cp, UP) && has_arm(cp, RIGHT)
            && has_arm(cp, DOWN) && has_arm(cp, LEFT),
        0x2571 <= cp <= 0x2573 ==> !has_arm(cp, UP) && !has_arm(cp, RIGHT) && !has_arm(cp, DOWN)
            && !has_arm(cp, LEFT),
        cp == 0x2574 || cp == 0x2578 ==> !has_arm(cp, UP) && !has_arm(cp, RIGHT) && !has_arm(
            cp,
            DOWN,
        ) && has_arm(cp, LEFT),
        cp == 0x2575 || cp == 0x2579 ==> has_arm(cp, UP) && !has_arm(cp, RIGHT) && !has_arm(
            cp,
            DOWN,
        ) && !has_arm(cp, LEFT),
        cp == 0x2576 || cp == 0x257A ==> !has_arm(cp, UP) && has_arm(cp, RIGHT) && !has_arm(
            cp,
            DOWN,
        ) && !has_arm(cp, LEFT),
        cp == 0x2577 || cp == 0x257B ==> !has_arm(cp, UP) && !has_arm(cp, RIGHT) && has_arm(
            cp,
            DOWN,
        ) && !has_arm(cp, LEFT),
{
    reveal(arms_of);
}

/// The heavier of two arms is heavy where one of them is, and otherwise the one that is
/// there.
pub proof fn lemma_heavier(a: Stroke, b: Stroke)
    ensures
        a == Stroke::Heavy || b == Stroke::Heavy ==> a.heavier(b) == Stroke::Heavy,
        a == Stroke::Absent ==> a.heavier(b) == b,
        b == Stroke::Absent ==> a.heavier(b) == a,
        a.heavier(b) == a || a.heavier(b) == b,
        a.heavier(b) == Stroke::Absent <==> a == Stroke::Absent && b == Stroke::Absent,
{
}

/// The dashed characters: three dashes, four and two, four characters each.
pub proof fn lemma_dashed(cp: int)
    ensures
        dashes_of(cp) == Some(3int) <==> 0x2504 <= cp < 0x2508,
        dashes_of(cp) == Some(4int) <==> 0x2508 <= cp < 0x250C,
        dashes_of(cp) == Some(2int) <==> 0x254C <= cp < 0x2550,
        dashes_of(cp) is None || dashes_of(cp) == Some(2int) || dashes_of(cp) == Some(3int)
            || dashes_of(cp) == Some(4int),
{
}

} // verus!
