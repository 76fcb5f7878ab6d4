//! Colors.

use vstd::prelude::*;
use vstd::std_specs::cmp::PartialEqSpecImpl;
use crate::bits;

verus! {

/// A straight (not premultiplied) RGBA color: the bit patterns of its four
/// single-precision channels, each nominally between zero and one.
#[derive(Clone, Copy, Debug)]
pub struct Color(pub [u32; 4]);

impl Color {
    /// Opaque white.
    pub open spec fn spec_white() -> Color {
        Color([bits::ONE, bits::ONE, bits::ONE, bits::ONE])
    }

    /// Opaque white.
    #[verifier::when_used_as_spec(spec_white)]
    pub fn white() -> (color: Color)
        ensures
            color == Color::spec_white(),
    {
        Color([bits::ONE, bits::ONE, bits::ONE, bits::ONE])
    }

    /// Every channel compares equal.
    pub open spec fn same(self, other: Color) -> bool {
        &&& bits::float_eq(self.0[0], other.0[0])
        &&& bits::float_eq(self.0[1], other.0[1])
        &&& bits::float_eq(self.0[2], other.0[2])
        &&& bits::float_eq(self.0[3], other.0[3])
    }
}

impl PartialEqSpecImpl for Color {
    open spec fn obeys_eq_spec() -> bool {
        true
    }

    open spec fn eq_spec(&self, other: &Color) -> bool {
        self.same(*other)
    }
}

impl PartialEq for Color {
    /// Colors are equal where their channels are equal as numbers.
    fn eq(&self, other: &Color) -> (yes: bool) {
        bits::same(self.0[0], other.0[0]) && bits::same(self.0[1], other.0[1]) && bits::same(
            self.0[2],
            other.0[2],
        ) && bits::same(self.0[3], other.0[3])
    }
}

/// Colors are equal exactly where each channel of the one compares equal to that of the
/// other; a color with a channel that is not a number is equal to none.
pub proof fn lemma_same_color(a: Color, b: Color)
    ensures
        a.same(b) <==> forall|i: int|
            0 <= i < 4 ==> bits::float_eq(#[trigger] a.0[i], b.0[i]),
        a.same(b) == b.same(a),
        (exists|i: int| 0 <= i < 4 && bits::is_nan(#[trigger] a.0[i])) ==> !a.same(b),
{
    if forall|i: int| 0 <= i < 4 ==> bits::float_eq(#[trigger] a.0[i], b.0[i]) {
        assert(bits::float_eq(a.0[0], b.0[0]));
        assert(bits::float_eq(a.0[1], b.0[1]));
        assert(bits::float_eq(a.0[2], b.0[2]));
        assert(bits::float_eq(a.0[3], b.0[3]));
    }
}

} // verus!
