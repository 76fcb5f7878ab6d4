//! The glyph cache of a grid's font.
//!
//! A plain character of a grid is not shaped: its glyph comes straight off the charmap of
//! one of four faces, and is remembered, since a terminal's alphabet is tiny. What the
//! charmap lacks, and everything that is more than one plain character, is shaped.

use std::collections::HashMap;
use vstd::prelude::*;
use crate::scene::GlyphCell;

verus! {

broadcast use vstd::std_specs::hash::group_hash_axioms;

/// The faces of a font: regular, bold, italic, and both.
pub const FACES: usize = 4;

/// A glyph that a charmap has for a character, and its advance, as the bit pattern of a
/// single-precision number.
#[derive(Clone, Copy, Debug, PartialEq, Eq, Structural)]
pub struct GridGlyph {
    pub id: u16,
    pub advance: u32,
}

/// What a charmap says, where glyph 0 stands for none.
pub open spec fn mapped(id: u16, advance: u32) -> Option<GridGlyph> {
    if id != 0 {
        Some(GridGlyph { id, advance })
    } else {
        None
    }
}

/// One number for a face and a character.
pub open spec fn glyph_number(face: int, ch: char) -> int {
    face * 0x20_0000 + ch as u32
}

/// Different faces or characters have different numbers.
pub proof fn lemma_glyph_number_injective(face: int, ch: char, other: int, och: char)
    requires
        glyph_number(face, ch) == glyph_number(other, och),
    ensures
        face == other,
        ch == och,
{
    let (a, b) = (ch as u32, och as u32);
    assert(a < 0x20_0000 && b < 0x20_0000);
    assert(a == b);
}

/// What a font remembers: for each face and character that was looked up, the glyph, or
/// that there is none.
pub ghost struct FontState {
    pub glyphs: Map<int, Option<GridGlyph>>,
}

impl FontState {
    /// The character of a cell that has yet to be looked up.
    pub open spec fn unknown(self, face: int, direct: Option<char>) -> Option<char> {
        match direct {
            Some(ch) if !self.glyphs.contains_key(glyph_number(face, ch)) => Some(ch),
            _ => None,
        }
    }

    /// The glyph that draws a cell without shaping, where there is one.
    pub open spec fn glyph(self, face: int, direct: Option<char>) -> Option<GridGlyph> {
        match direct {
            Some(ch) if self.glyphs.contains_key(glyph_number(face, ch)) => {
                self.glyphs[glyph_number(face, ch)]
            },
            _ => None,
        }
    }

    /// The state once a character was looked up.
    pub open spec fn learned(self, face: int, ch: char, glyph: Option<GridGlyph>) -> FontState {
        FontState { glyphs: self.glyphs.insert(glyph_number(face, ch), glyph) }
    }
}

/// A character is looked up once for each face, and answered the same from then on,
/// whatever else is looked up.
pub proof fn lemma_learned_once(
    state: FontState,
    face: int,
    ch: char,
    glyph: Option<GridGlyph>,
    other: int,
    och: char,
)
    ensures
        state.learned(face, ch, glyph).unknown(face, Some(ch)) is None,
        state.learned(face, ch, glyph).glyph(face, Some(ch)) == glyph,
        (face, ch) != (other, och) ==> state.learned(face, ch, glyph).unknown(other, Some(och))
            == state.unknown(other, Some(och)) && state.learned(face, ch, glyph).glyph(
            other,
            Some(och),
        ) == state.glyph(other, Some(och)),
{
    if glyph_number(face, ch) == glyph_number(other, och) {
        lemma_glyph_number_injective(face, ch, other, och);
    }
}

/// A charmap's answer is kept as it is, glyph and advance, but for glyph 0, which is none.
pub proof fn lemma_mapped(id: u16, advance: u32)
    ensures
        mapped(id, advance) is None <==> id == 0,
        mapped(id, advance) matches Some(glyph) ==> glyph.id == id && glyph.advance == advance,
{
}

/// A font that was asked nothing asks for every plain character; what is no plain character
/// is never asked for and has no glyph of its own; and a character has a glyph only once it
/// was looked up.
pub proof fn lemma_asks_first(state: FontState, face: int, ch: char)
    ensures
        state.glyphs.dom().is_empty() ==> state.unknown(face, Some(ch)) == Some(ch),
        state.unknown(face, None) is None,
        state.glyph(face, None) is None,
        state.unknown(face, Some(ch)) matches Some(asked) ==> asked == ch && state.glyph(
            face,
            Some(ch),
        ) is None,
{
}

/// The glyphs that a grid's font was asked for.
pub struct GridFont {
    glyphs: HashMap<u64, Option<GridGlyph>>,
}

impl View for GridFont {
    type V = FontState;

    closed spec fn view(&self) -> FontState {
        FontState {
            glyphs: Map::new(
                |n: int| 0 <= n <= u64::MAX && self.glyphs@.contains_key(n as u64),
                |n: int| self.glyphs@[n as u64],
            ),
        }
    }
}

fn pack(face: usize, ch: char) -> (n: u64)
    requires
        face < FACES,
    ensures
        n == glyph_number(face as int, ch),
{
    face as u64 * 0x20_0000 + ch as u64
}

impl GridFont {
    /// A font that was not asked for anything.
    pub fn new() -> (font: GridFont)
        ensures
            font@.glyphs == Map::<int, Option<GridGlyph>>::empty(),
    {
        let font = GridFont { glyphs: HashMap::new() };
        assert(font@.glyphs =~= Map::<int, Option<GridGlyph>>::empty());
        font
    }

    /// The character to look up in the charmap of the cell's face before the cell is drawn,
    /// where there is one.
    pub fn unknown(&self, cell: &GlyphCell) -> (ch: Option<char>)
        requires
            cell.face < FACES,
        ensures
            ch == self@.unknown(cell.face as int, cell.direct),
    {
        match cell.direct {
            Some(ch) => {
                if self.glyphs.contains_key(&pack(cell.face, ch)) {
                    None
                } else {
                    Some(ch)
                }
            },
            None => None,
        }
    }

    /// Remembers what the charmap of a face has for a character.
    pub fn learn(&mut self, face: usize, ch: char, id: u16, advance: u32)
        requires
            face < FACES,
        ensures
            final(self)@ == old(self)@.learned(face as int, ch, mapped(id, advance)),
    {
        let glyph: Option<GridGlyph> = if id != 0 {
            Some(GridGlyph { id, advance })
        } else {
            None
        };
        let n: u64 = pack(face, ch);
        let before: Option<Option<GridGlyph>> = self.glyphs.insert(n, glyph);
        assert(self@.glyphs =~= old(self)@.glyphs.insert(n as int, glyph));
    }

    /// The glyph that draws a cell without shaping. Where there is none, the cell's text is
    /// shaped.
    pub fn glyph(&self, cell: &GlyphCell) -> (glyph: Option<GridGlyph>)
        requires
            cell.face < FACES,
        ensures
            glyph == self@.glyph(cell.face as int, cell.direct),
    {
        match cell.direct {
            Some(ch) => match self.glyphs.get(&pack(cell.face, ch)) {
                Some(glyph) => *glyph,
                None => None,
            },
            None => None,
        }
    }
}

} // verus!
