//! Where decorations hang: the metrics of each face, and the glyph a span follows.
use crate::bits;
use std::collections::HashMap;
use vstd::prelude::*;

verus! {

broadcast use vstd::std_specs::hash::group_hash_axioms;

/// Where a face wants its decoration lines, in em, as bit patterns.
///
/// Offsets are from the baseline up, and mark the top of the stroke: an underline's is
/// negative, a strikeout's positive.
#[derive(Clone, Copy, Debug, PartialEq, Eq, Structural)]
pub struct LineMetrics {
    pub underline_offset: u32,
    pub strikeout_offset: u32,
    /// The thickness of either stroke.
    pub thickness: u32,
}

/// A tenth of an em below the baseline.
pub const FALLBACK_UNDERLINE: u32 = 0xBDCC_CCCD;

/// A little above the middle of the small letters.
pub const FALLBACK_STRIKEOUT: u32 = 0x3E8F_5C29;

/// Six hundredths of an em.
pub const FALLBACK_THICKNESS: u32 = 0x3D75_C28F;

impl LineMetrics {
    /// What a face without decoration metrics gets.
    pub open spec fn spec_fallback() -> LineMetrics {
        LineMetrics {
            underline_offset: FALLBACK_UNDERLINE,
            strikeout_offset: FALLBACK_STRIKEOUT,
            thickness: FALLBACK_THICKNESS,
        }
    }

    /// What a face without decoration metrics gets.
    pub fn fallback() -> (metrics: LineMetrics)
        ensures
            metrics == LineMetrics::spec_fallback(),
    {
        LineMetrics {
            underline_offset: FALLBACK_UNDERLINE,
            strikeout_offset: FALLBACK_STRIKEOUT,
            thickness: FALLBACK_THICKNESS,
        }
    }

    /// A face's metrics, in em. A value that the face leaves at zero falls back rather
    /// than making the decoration collapse, and so does everything where the face has no
    /// units per em.
    pub fn of_face(has_units: bool, underline: u32, strikeout: u32, thickness: u32) -> (metrics:
        LineMetrics)
        ensures
            metrics == (if has_units {
                LineMetrics {
                    underline_offset: or_fallback(underline, FALLBACK_UNDERLINE),
                    strikeout_offset: or_fallback(strikeout, FALLBACK_STRIKEOUT),
                    thickness: or_fallback(thickness, FALLBACK_THICKNESS),
                }
            } else {
                LineMetrics::spec_fallback()
            }),
    {
        if !has_units {
            return LineMetrics::fallback();
        }
        LineMetrics {
            underline_offset: if bits::same(underline, 0) {
                FALLBACK_UNDERLINE
            } else {
                underline
            },
            strikeout_offset: if bits::same(strikeout, 0) {
                FALLBACK_STRIKEOUT
            } else {
                strikeout
            },
            thickness: if bits::same(thickness, 0) {
                FALLBACK_THICKNESS
            } else {
                thickness
            },
        }
    }
}

/// A value, or the fallback for zero.
pub open spec fn or_fallback(value: u32, fallback: u32) -> u32 {
    if bits::float_eq(value, 0) {
        fallback
    } else {
        value
    }
}

/// The metrics of the faces in use, by font.
pub struct LineMetricsCache {
    metrics: HashMap<u32, LineMetrics>,
}

impl View for LineMetricsCache {
    type V = Map<u32, LineMetrics>;

    closed spec fn view(&self) -> Map<u32, LineMetrics> {
        self.metrics@
    }
}

/// The glyph is the first one of a font whose metrics are not known.
pub open spec fn brings_font(known: Map<u32, LineMetrics>, fonts: Seq<u32>, i: int) -> bool {
    &&& !known.contains_key(fonts[i])
    &&& forall|j: int| 0 <= j < i ==> #[trigger] fonts[j] != fonts[i]
}

impl LineMetricsCache {
    /// An empty cache.
    pub fn new() -> (cache: LineMetricsCache)
        ensures
            cache@ == Map::<u32, LineMetrics>::empty(),
    {
        LineMetricsCache { metrics: HashMap::new() }
    }

    /// The glyphs that bring in a font whose metrics are to be read: the first one of each
    /// such font. `fonts` is the font of every glyph.
    pub fn missing(&self, fonts: &Vec<u32>) -> (glyphs: Vec<usize>)
        ensures
            forall|k: int|
                0 <= k < glyphs@.len() ==> #[trigger] glyphs@[k] < fonts@.len() && brings_font(
                    self@,
                    fonts@,
                    glyphs@[k] as int,
                ),
            forall|j: int, k: int|
                0 <= j < k < glyphs@.len() ==> #[trigger] glyphs@[j] < #[trigger] glyphs@[k],
            forall|i: int|
                0 <= i < fonts@.len() && #[trigger] brings_font(self@, fonts@, i)
                    ==> glyphs@.contains(i as usize),
    {
        let mut glyphs: Vec<usize> = Vec::new();
        let mut i: usize = 0;
        while i < fonts.len()
            invariant
                i <= fonts@.len(),
                forall|k: int|
                    0 <= k < glyphs@.len() ==> #[trigger] glyphs@[k] < i && brings_font(
                        self@,
                        fonts@,
                        glyphs@[k] as int,
                    ),
                forall|j: int, k: int|
                    0 <= j < k < glyphs@.len() ==> #[trigger] glyphs@[j] < #[trigger] glyphs@[k],
                forall|j: int|
                    0 <= j < i && #[trigger] brings_font(self@, fonts@, j) ==> glyphs@.contains(
                        j as usize,
                    ),
            decreases fonts@.len() - i,
        {
            let font: u32 = fonts[i];
            let mut seen: bool = self.metrics.contains_key(&font);
            let mut k: usize = 0;
            while k < glyphs.len() && !seen
                invariant
                    k <= glyphs@.len(),
                    i < fonts@.len(),
                    font == fonts@[i as int],
                    forall|j: int| 0 <= j < glyphs@.len() ==> #[trigger] glyphs@[j] < i,
                    forall|j: int|
                        0 <= j < k && !seen ==> fonts@[#[trigger] glyphs@[j] as int] != font,
                    seen ==> self@.contains_key(font) || exists|j: int|
                        0 <= j < i && #[trigger] fonts@[j] == font,
                    !seen ==> !self@.contains_key(font),
                decreases glyphs@.len() - k,
            {
                if fonts[glyphs[k]] == font {
                    assert(fonts@[glyphs@[k as int] as int] == font);
                    seen = true;
                }
                k = k + 1;
            }
            let ghost before = glyphs@;
            proof {
                if !seen {
                    assert forall|j: int| 0 <= j < i implies #[trigger] fonts@[j]
                        != fonts@[i as int] by {
                        if fonts@[j] == font {
                            let f = lemma_first_of_font(self@, fonts@, j);
                            assert(brings_font(self@, fonts@, f));
                            assert(before.contains(f as usize));
                            let k = choose|k: int| 0 <= k < before.len() && before[k] == f as usize;
                            assert(fonts@[before[k] as int] == font);
                        }
                    }
                    assert(brings_font(self@, fonts@, i as int));
                }
            }
            if !seen {
                glyphs.push(i);
                assert(glyphs@[before.len() as int] == i);
            }
            assert forall|j: int|
                0 <= j < i + 1 && #[trigger] brings_font(self@, fonts@, j) implies glyphs@.contains(
                j as usize,
            ) by {
                if j < i {
                    let k = choose|k: int| 0 <= k < before.len() && before[k] == j as usize;
                    assert(glyphs@[k] == j as usize);
                } else if seen {
                    let other = choose|o: int| 0 <= o < i && #[trigger] fonts@[o] == font;
                    assert(fonts@[other] != fonts@[j]);
                } else {
                    assert(glyphs@[before.len() as int] == i);
                }
            }
            i = i + 1;
        }
        glyphs
    }

    /// Takes the metrics of a font.
    pub fn insert(&mut self, font: u32, metrics: LineMetrics)
        ensures
            final(self)@ == old(self)@.insert(font, metrics),
    {
        let _before: Option<LineMetrics> = self.metrics.insert(font, metrics);
    }

    /// The metrics of a font, or the fallbacks.
    pub fn line_metrics(&self, font: u32) -> (metrics: LineMetrics)
        ensures
            metrics == (if self@.contains_key(font) {
                self@[font]
            } else {
                LineMetrics::spec_fallback()
            }),
    {
        match self.metrics.get(&font) {
            Some(metrics) => *metrics,
            None => LineMetrics::fallback(),
        }
    }
}

proof fn lemma_first_of_font(known: Map<u32, LineMetrics>, fonts: Seq<u32>, i: int) -> (first: int)
    requires
        0 <= i < fonts.len(),
        !known.contains_key(fonts[i]),
    ensures
        0 <= first <= i,
        fonts[first] == fonts[i],
        brings_font(known, fonts, first),
    decreases i,
{
    if exists|j: int| 0 <= j < i && #[trigger] fonts[j] == fonts[i] {
        let j = choose|j: int| 0 <= j < i && #[trigger] fonts[j] == fonts[i];
        lemma_first_of_font(known, fonts, j)
    } else {
        i
    }
}

/// The glyph is covered, no covered one is larger, and none behind it is as large.
pub open spec fn dominates(covered: Seq<bool>, sizes: Seq<u32>, at: int) -> bool {
    &&& 0 <= at < sizes.len()
    &&& covered[at]
    &&& forall|i: int|
        0 <= i < sizes.len() && #[trigger] covered[i] ==> bits::total_rank(sizes[i])
            <= bits::total_rank(sizes[at]) && (i > at ==> bits::total_rank(sizes[i])
            < bits::total_rank(sizes[at]))
}

/// The glyph that a decoration takes its metrics from: the largest one that its span
/// covers, the last of equals, or the first glyph where it covers none.
pub fn dominant_glyph(covered: &Vec<bool>, sizes: &Vec<u32>) -> (glyph: Option<usize>)
    requires
        covered@.len() == sizes@.len(),
    ensures
        glyph is None <==> sizes@.len() == 0,
        glyph matches Some(at) ==> dominates(covered@, sizes@, at as int) || at == 0 && forall|
            i: int,
        |
            0 <= i < covered@.len() ==> !#[trigger] covered@[i],
{
    let mut best: Option<usize> = None;
    let mut i: usize = 0;
    while i < sizes.len()
        invariant
            i <= sizes@.len(),
            covered@.len() == sizes@.len(),
            best is None ==> forall|k: int| 0 <= k < i ==> !#[trigger] covered@[k],
            best matches Some(at) ==> at < i && covered@[at as int] && forall|k: int|
                0 <= k < i && #[trigger] covered@[k] ==> bits::total_rank(sizes@[k])
                    <= bits::total_rank(sizes@[at as int]) && (k > at ==> bits::total_rank(
                    sizes@[k],
                ) < bits::total_rank(sizes@[at as int])),
        decreases sizes@.len() - i,
    {
        if covered[i] {
            let better: bool = match best {
                None => true,
                Some(at) => bits::total_rank_of(sizes[i]) >= bits::total_rank_of(sizes[at]),
            };
            if better {
                best = Some(i);
            }
        }
        i = i + 1;
    }
    match best {
        Some(at) => Some(at),
        None => if sizes.len() > 0 {
            Some(0)
        } else {
            None
        },
    }
}

/// A value that is zero, of either sign, gives way to the fallback, and any other stays.
pub proof fn lemma_or_fallback(value: u32, fallback: u32)
    ensures
        value == 0 || value == 0x8000_0000 ==> or_fallback(value, fallback) == fallback,
        value != 0 && value != 0x8000_0000 ==> or_fallback(value, fallback) == value,
{
}

/// At most one glyph dominates, no covered glyph of the same size stands behind it, and a
/// covered glyph that is at least as large takes over where it comes last.
pub proof fn lemma_dominant_is_last(
    covered: Seq<bool>,
    sizes: Seq<u32>,
    at: int,
    other: int,
    size: u32,
)
    requires
        covered.len() == sizes.len(),
        dominates(covered, sizes, at),
    ensures
        dominates(covered, sizes, other) ==> other == at,
        at < other < sizes.len() && sizes[other] == sizes[at] ==> !covered[other],
        bits::total_rank(size) >= bits::total_rank(sizes[at]) ==> dominates(
            covered.push(true),
            sizes.push(size),
            sizes.len() as int,
        ),
        bits::total_rank(size) < bits::total_rank(sizes[at]) ==> dominates(
            covered.push(true),
            sizes.push(size),
            at,
        ),
        dominates(covered.push(false), sizes.push(size), at),
{
}

} // verus!
