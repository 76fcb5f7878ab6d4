//! How many terminal cells a character takes.

use vstd::prelude::*;

verus! {

/// East Asian Width `W` and `F` ranges, merged and sorted, from
/// `EastAsianWidth-17.0.0.txt` (UAX #11, 2025-07-24). The blocks that file
/// documents as defaulting to `W` for unassigned code points (CJK Ext A, CJK
/// Unified, CJK Compatibility Ideographs, and planes 2 and 3) are folded in, so
/// an unassigned ideograph still takes two cells rather than jumping to one the
/// day it is assigned.
pub const WIDE_RANGES: [(u32, u32); 123] = [
    (0x1100, 0x115F),
    (0x231A, 0x231B),
    (0x2329, 0x232A),
    (0x23E9, 0x23EC),
    (0x23F0, 0x23F0),
    (0x23F3, 0x23F3),
    (0x25FD, 0x25FE),
    (0x2614, 0x2615),
    (0x2630, 0x2637),
    (0x2648, 0x2653),
    (0x267F, 0x267F),
    (0x268A, 0x268F),
    (0x2693, 0x2693),
    (0x26A1, 0x26A1),
    (0x26AA, 0x26AB),
    (0x26BD, 0x26BE),
    (0x26C4, 0x26C5),
    (0x26CE, 0x26CE),
    (0x26D4, 0x26D4),
    (0x26EA, 0x26EA),
    (0x26F2, 0x26F3),
    (0x26F5, 0x26F5),
    (0x26FA, 0x26FA),
    (0x26FD, 0x26FD),
    (0x2705, 0x2705),
    (0x270A, 0x270B),
    (0x2728, 0x2728),
    (0x274C, 0x274C),
    (0x274E, 0x274E),
    (0x2753, 0x2755),
    (0x2757, 0x2757),
    (0x2795, 0x2797),
    (0x27B0, 0x27B0),
    (0x27BF, 0x27BF),
    (0x2B1B, 0x2B1C),
    (0x2B50, 0x2B50),
    (0x2B55, 0x2B55),
    (0x2E80, 0x2E99),
    (0x2E9B, 0x2EF3),
    (0x2F00, 0x2FD5),
    (0x2FF0, 0x303E),
    (0x3041, 0x3096),
    (0x3099, 0x30FF),
    (0x3105, 0x312F),
    (0x3131, 0x318E),
    (0x3190, 0x31E5),
    (0x31EF, 0x321E),
    (0x3220, 0x3247),
    (0x3250, 0xA48C),
    (0xA490, 0xA4C6),
    (0xA960, 0xA97C),
    (0xAC00, 0xD7A3),
    (0xF900, 0xFAFF),
    (0xFE10, 0xFE19),
    (0xFE30, 0xFE52),
    (0xFE54, 0xFE66),
    (0xFE68, 0xFE6B),
    (0xFF01, 0xFF60),
    (0xFFE0, 0xFFE6),
    (0x16FE0, 0x16FE4),
    (0x16FF0, 0x16FF6),
    (0x17000, 0x18CD5),
    (0x18CFF, 0x18D1E),
    (0x18D80, 0x18DF2),
    (0x1AFF0, 0x1AFF3),
    (0x1AFF5, 0x1AFFB),
    (0x1AFFD, 0x1AFFE),
    (0x1B000, 0x1B122),
    (0x1B132, 0x1B132),
    (0x1B150, 0x1B152),
    (0x1B155, 0x1B155),
    (0x1B164, 0x1B167),
    (0x1B170, 0x1B2FB),
    (0x1D300, 0x1D356),
    (0x1D360, 0x1D376),
    (0x1F004, 0x1F004),
    (0x1F0CF, 0x1F0CF),
    (0x1F18E, 0x1F18E),
    (0x1F191, 0x1F19A),
    (0x1F200, 0x1F202),
    (0x1F210, 0x1F23B),
    (0x1F240, 0x1F248),
    (0x1F250, 0x1F251),
    (0x1F260, 0x1F265),
    (0x1F300, 0x1F320),
    (0x1F32D, 0x1F335),
    (0x1F337, 0x1F37C),
    (0x1F37E, 0x1F393),
    (0x1F3A0, 0x1F3CA),
    (0x1F3CF, 0x1F3D3),
    (0x1F3E0, 0x1F3F0),
    (0x1F3F4, 0x1F3F4),
    (0x1F3F8, 0x1F43E),
    (0x1F440, 0x1F440),
    (0x1F442, 0x1F4FC),
    (0x1F4FF, 0x1F53D),
    (0x1F54B, 0x1F54E),
    (0x1F550, 0x1F567),
    (0x1F57A, 0x1F57A),
    (0x1F595, 0x1F596),
    (0x1F5A4, 0x1F5A4),
    (0x1F5FB, 0x1F64F),
    (0x1F680, 0x1F6C5),
    (0x1F6CC, 0x1F6CC),
    (0x1F6D0, 0x1F6D2),
    (0x1F6D5, 0x1F6D8),
    (0x1F6DC, 0x1F6DF),
    (0x1F6EB, 0x1F6EC),
    (0x1F6F4, 0x1F6FC),
    (0x1F7E0, 0x1F7EB),
    (0x1F7F0, 0x1F7F0),
    (0x1F90C, 0x1F93A),
    (0x1F93C, 0x1F945),
    (0x1F947, 0x1F9FF),
    (0x1FA70, 0x1FA7C),
    (0x1FA80, 0x1FA8A),
    (0x1FA8E, 0x1FAC6),
    (0x1FAC8, 0x1FAC8),
    (0x1FACD, 0x1FADC),
    (0x1FADF, 0x1FAEA),
    (0x1FAEF, 0x1FAF8),
    (0x20000, 0x2FFFD),
    (0x30000, 0x3FFFD),
];

/// The code point lies in the `i`-th wide range.
pub open spec fn in_range(cp: int, i: int) -> bool {
    WIDE_RANGES[i].0 <= cp <= WIDE_RANGES[i].1
}

/// The code point has East Asian Width `W` or `F`.
pub open spec fn is_wide(cp: int) -> bool {
    exists|i: int| 0 <= i < WIDE_RANGES.len() && #[trigger] in_range(cp, i)
}

/// Cells a character occupies.
pub open spec fn width_of(ch: char) -> int {
    if is_wide(ch as int) {
        2
    } else {
        1
    }
}

spec fn steps_up(i: int) -> bool {
    WIDE_RANGES[i].0 <= WIDE_RANGES[i].1 < WIDE_RANGES[i + 1].0
}

/// The wide ranges are nonempty, ascending and do not touch each other.
pub proof fn lemma_ranges_ascend(i: int, j: int)
    requires
        0 <= i < j < WIDE_RANGES.len(),
    ensures
        WIDE_RANGES[i].0 <= WIDE_RANGES[i].1 < WIDE_RANGES[j].0 <= WIDE_RANGES[j].1,
    decreases j - i,
{
    assert forall|k: int| 0 <= k < 122 implies steps_up(k) by {}
    assert(WIDE_RANGES[122].0 <= WIDE_RANGES[122].1);
    assert(steps_up(i));
    if j < 122 {
        assert(steps_up(j));
    }
    if i + 1 < j {
        lemma_ranges_ascend(i + 1, j);
    }
}

/// Box-drawing and block characters take one cell.
pub proof fn lemma_box_is_narrow(ch: char)
    requires
        0x2500 <= ch as int <= 0x259F,
    ensures
        width_of(ch) == 1,
{
    assert forall|i: int| 0 <= i < WIDE_RANGES.len() implies !#[trigger] in_range(ch as int, i) by {
        if i < 5 {
            lemma_ranges_ascend(i, 5);
            lemma_ranges_ascend(5, 6);
        } else if i > 6 {
            lemma_ranges_ascend(6, i);
        }
    }
}

/// Cells a character occupies: 2 for East Asian Width `W` (wide) and `F`
/// (fullwidth), 1 for everything else.
///
/// Combining marks are not asked about: they never reach a cell of their own,
/// because text is split into grapheme clusters and a cluster gets one cell.
pub fn char_width(ch: char) -> (width: u16)
    ensures
        width == width_of(ch),
{
    let cp: u32 = ch as u32;
    // Everything below the first wide range, which is all of Latin, is the hot
    // path and skips the search entirely.
    if cp < WIDE_RANGES[0].0 {
        proof {
            assert forall|i: int| 0 <= i < WIDE_RANGES.len() implies !#[trigger] in_range(
                cp as int,
                i,
            ) by {
                if i > 0 {
                    lemma_ranges_ascend(0, i);
                }
            }
        }
        return 1;
    }
    let mut low: usize = 0;
    let mut high: usize = WIDE_RANGES.len();
    while low < high
        invariant
            low <= high <= WIDE_RANGES.len() == 123,
            forall|i: int| 0 <= i < low ==> !#[trigger] in_range(cp as int, i),
            forall|i: int| high <= i < WIDE_RANGES.len() ==> !#[trigger] in_range(cp as int, i),
            cp == ch as u32,
        decreases high - low,
    {
        let mid: usize = low + (high - low) / 2;
        let (first, last) = WIDE_RANGES[mid];
        if cp < first {
            proof {
                assert forall|i: int| mid <= i < WIDE_RANGES.len() implies !#[trigger] in_range(
                    cp as int,
                    i,
                ) by {
                    if i > mid {
                        lemma_ranges_ascend(mid as int, i);
                    }
                }
            }
            high = mid;
        } else if last < cp {
            proof {
                assert forall|i: int| 0 <= i <= mid implies !#[trigger] in_range(
                    cp as int,
                    i,
                ) by {
                    if i < mid {
                        lemma_ranges_ascend(i, mid as int);
                    }
                }
            }
            low = mid + 1;
        } else {
            assert(in_range(cp as int, mid as int));
            return 2;
        }
    }
    1
}

/// U+FE0F, which asks for emoji presentation of the character before it.
pub const EMOJI_SELECTOR: char = '\u{FE0F}';

/// Cells a grapheme cluster occupies.
pub open spec fn cluster_width_of(cluster: Seq<char>) -> int {
    if cluster.len() == 0 {
        0
    } else if cluster.contains(EMOJI_SELECTOR) {
        2
    } else {
        width_of(cluster[0])
    }
}

/// Width of a whole grapheme cluster: its base character's, except that an
/// emoji-presentation selector makes the cluster wide, the rule that keeps a
/// warning sign from clipping its neighbour.
pub fn cluster_width(cluster: &str) -> (width: u16)
    ensures
        width == cluster_width_of(cluster@),
{
    let mut base: Option<char> = None;
    let mut wide: bool = false;
    for ch in chars: cluster.chars()
        invariant
            chars.seq() == cluster@,
            chars.index() == 0 <==> base is None,
            base matches Some(b) ==> b == cluster@[0],
            wide <==> exists|i: int|
                0 <= i < chars.index() && #[trigger] cluster@[i] == EMOJI_SELECTOR,
    {
        if base.is_none() {
            base = Some(ch);
        }
        if ch == EMOJI_SELECTOR {
            assert(cluster@[chars.index() as int] == EMOJI_SELECTOR);
            wide = true;
        }
    }
    match base {
        None => 0,
        Some(base) => {
            if wide {
                2
            } else {
                char_width(base)
            }
        },
    }
}

/// The emoji blocks and the symbol blocks that hold emoji.
pub open spec fn emoji_code(cp: int) -> bool {
    ||| 0x1F000 <= cp <= 0x1FAFF
    ||| 0x2600 <= cp <= 0x26FF
    ||| 0x2B00 <= cp <= 0x2BFF
}

/// Characters that are shaped whatever the charmap says: emoji, which a text font
/// may well have a monochrome glyph for but which belong on the shaped path, where
/// font fallback finds the color font.
pub fn is_emoji(ch: char) -> (yes: bool)
    ensures
        yes == emoji_code(ch as int),
{
    let cp: u32 = ch as u32;
    (0x1F000 <= cp && cp <= 0x1FAFF) || (0x2600 <= cp && cp <= 0x26FF) || (0x2B00 <= cp && cp
        <= 0x2BFF)
}

/// The control characters: C0, delete, and C1.
pub open spec fn control_code(cp: int) -> bool {
    cp < 0x20 || 0x7F <= cp <= 0x9F
}

/// Whether a character is a control character (general category `Cc`).
pub fn is_control(ch: char) -> (yes: bool)
    ensures
        yes == control_code(ch as int),
{
    let cp: u32 = ch as u32;
    cp < 0x20 || (0x7F <= cp && cp <= 0x9F)
}

/// The width of a cluster: two cells where it asks for emoji presentation or starts with a
/// wide character, one otherwise; nothing for no character at all.
pub proof fn lemma_cluster_width(cluster: Seq<char>)
    ensures
        cluster.len() == 0 ==> cluster_width_of(cluster) == 0,
        cluster.len() > 0 && (cluster.contains('\u{FE0F}') || is_wide(cluster[0] as int))
            ==> cluster_width_of(cluster) == 2,
        cluster.len() > 0 && !cluster.contains('\u{FE0F}') && !is_wide(cluster[0] as int)
            ==> cluster_width_of(cluster) == 1,
{
}

/// Plain letters, digits and signs take one cell, are no control characters and no emoji;
/// the characters below them and the one behind them are controls.
pub proof fn lemma_ascii(ch: char)
    requires
        (ch as int) < 0x80,
    ensures
        width_of(ch) == 1,
        control_code(ch as int) <==> (ch as int) < 0x20 || ch as int == 0x7F,
        !emoji_code(ch as int),
{
    assert forall|i: int| 0 <= i < WIDE_RANGES.len() implies !#[trigger] in_range(ch as int, i) by {
        if i > 0 {
            lemma_ranges_ascend(0, i);
        }
    }
}

/// Controls are the first two columns of either half of the first block, and delete; emoji
/// fill whole blocks: miscellaneous symbols, arrows and symbols, and the pictographs.
pub proof fn lemma_code_blocks(cp: int)
    requires
        0 <= cp,
    ensures
        control_code(cp) <==> cp < 0x100 && (cp % 0x80 < 0x20 || cp == 0x7F),
        emoji_code(cp) <==> cp / 0x100 == 0x26 || cp / 0x100 == 0x2B || 0x1F0 <= cp / 0x100
            <= 0x1FA,
{
}

/// The scripts that are written wide take two cells throughout: the unified ideographs with
/// the planes set aside for them, the syllables of Hangul, and the letters of Hiragana.
/// Nothing before Hangul's first consonants or behind the ideographs' planes does.
pub proof fn lemma_wide_scripts(cp: int)
    ensures
        0x3400 <= cp <= 0x4DBF || 0x4E00 <= cp <= 0x9FFF ==> is_wide(cp),
        0xAC00 <= cp <= 0xD7A3 ==> is_wide(cp),
        0x3041 <= cp <= 0x3096 ==> is_wide(cp),
        cp / 0x10000 == 2 && cp % 0x10000 < 0xFFFE ==> is_wide(cp),
        cp / 0x10000 == 3 && cp % 0x10000 < 0xFFFE ==> is_wide(cp),
        cp < 0x1100 || cp >= 0x40000 ==> !is_wide(cp),
{
    if 0x3400 <= cp <= 0x4DBF || 0x4E00 <= cp <= 0x9FFF {
        assert(in_range(cp, 48));
    } else if 0xAC00 <= cp <= 0xD7A3 {
        assert(in_range(cp, 51));
    } else if 0x3041 <= cp <= 0x3096 {
        assert(in_range(cp, 41));
    } else if cp / 0x10000 == 2 && cp % 0x10000 < 0xFFFE {
        assert(in_range(cp, 121));
    } else if cp / 0x10000 == 3 && cp % 0x10000 < 0xFFFE {
        assert(in_range(cp, 122));
    }
    if cp < 0x1100 || cp >= 0x40000 {
        assert forall|i: int| 0 <= i < WIDE_RANGES.len() implies !#[trigger] in_range(cp, i) by {
            if i > 0 {
                lemma_ranges_ascend(0, i);
            }
            if i < 122 {
                lemma_ranges_ascend(i, 122);
            }
        }
    }
}

} // verus!
