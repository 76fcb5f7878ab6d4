//! How a glyph's curves map to texels.
//!
//! Texels are four halves each. A glyph owns one contiguous block of an even number of
//! texels, and every offset stored inside it is relative to the block's first texel.
//!
//! A flat block is two texels per curve: the first two control points, then the third
//! and padding.
//!
//! A banded block starts with a header: [`BANDS`] entries for the bands along y, then
//! as many along x, one texel each, holding the offset of the band's descending list,
//! its curve count, its split coordinate, and the offset of its ascending list. The
//! lists follow in header order, two per band, each starting on a texel boundary. A list
//! entry is the offset of a curve's texel from the block's base. The curve texels come
//! last, one per curve plus one per contour: within a contour the third control point of
//! a curve is the first one of the next, so a curve's texel holds its first two control
//! points and the next texel starts with its third.
//!
//! A band's two lists hold the same curves in opposite orders: by descending maximum
//! along the ray axis for rays fired forward, by ascending minimum for rays fired
//! backward, so that a walk can stop at the first curve that has fallen behind.

use vstd::prelude::*;
use crate::halves;
use crate::halves::{
    half_number_of, half_of, half_rank_of, is_number_half, max_half, min_half, F16_EXACT_INT,
};

verus! {

/// Halves per texel.
pub const FLOATS_PER_TEXEL: usize = 4;

/// Bytes one texel occupies in the texture.
pub const BYTES_PER_TEXEL: usize = 8;

/// Texels per curve in a flat block.
pub const TEXELS_PER_CURVE: usize = 2;

/// Halves per curve in a flat block.
pub const FLOATS_PER_CURVE: usize = 8;

/// Bands per axis.
pub const BANDS: usize = 8;

/// Texels per band header entry.
pub const BAND_ENTRY_TEXELS: usize = 1;

/// Texels the band header occupies.
pub const HEADER_TEXELS: usize = 16;

/// Glyphs with more curves than this get band tables; at or below it the flat loop is
/// cheaper than the indirection.
pub const BAND_MIN_CURVES: u32 = 16;

/// Set in an instance's count where the glyph's block is banded.
pub const BANDED_FLAG: u32 = 0x8000_0000;

/// Which coordinate.
#[derive(Clone, Copy, Debug, PartialEq, Eq, Structural)]
pub enum Axis {
    X,
    Y,
}

/// A quadratic curve: the bit patterns, as halves, of its three control points in em
/// units.
#[derive(Clone, Copy, Debug, PartialEq, Eq, Structural)]
pub struct Curve {
    pub x0: u16,
    pub y0: u16,
    pub x1: u16,
    pub y1: u16,
    pub x2: u16,
    pub y2: u16,
}

impl Curve {
    /// The control points' coordinates along an axis.
    pub open spec fn along(self, axis: Axis) -> (u16, u16, u16) {
        match axis {
            Axis::X => (self.x0, self.x1, self.x2),
            Axis::Y => (self.y0, self.y1, self.y2),
        }
    }

    /// The curve ends where the other one starts.
    pub open spec fn meets(self, next: Curve) -> bool {
        self.x2 == next.x0 && self.y2 == next.y0
    }
}

/// The range of a curve's control points along an axis.
pub open spec fn span_of(curve: Curve, axis: Axis) -> (u16, u16) {
    let (a, b, c) = curve.along(axis);
    (halves::half_min(halves::half_min(a, b), c), halves::half_max(halves::half_max(a, b), c))
}

/// A curve's control-point range along one axis.
pub fn control_span(curve: Curve, axis: Axis) -> (span: (u16, u16))
    ensures
        span == span_of(curve, axis),
{
    let (a, b, c) = match axis {
        Axis::X => (curve.x0, curve.x1, curve.x2),
        Axis::Y => (curve.y0, curve.y1, curve.y2),
    };
    (min_half(min_half(a, b), c), max_half(max_half(a, b), c))
}

/// The range of the `i`-th curve along an axis, over both masters.
pub open spec fn span_at(a: Seq<Curve>, b: Option<Seq<Curve>>, axis: Axis, i: int) -> (u16, u16) {
    let own = span_of(a[i], axis);
    match b {
        None => own,
        Some(b) => {
            let other = span_of(b[i], axis);
            (halves::half_min(own.0, other.0), halves::half_max(own.1, other.1))
        },
    }
}

/// The view of an optional second master.
pub open spec fn master_view(b: Option<&Vec<Curve>>) -> Option<Seq<Curve>> {
    match b {
        Some(b) => Some(b@),
        None => None,
    }
}

/// Every curve's control-point range along one axis, spanning both masters.
///
/// A blended control point lies between the two masters', so one span bounds the glyph at
/// every blend.
pub fn spans(a: &Vec<Curve>, b: Option<&Vec<Curve>>, axis: Axis) -> (spans: Vec<(u16, u16)>)
    requires
        b matches Some(b) ==> b@.len() == a@.len(),
    ensures
        spans@ == Seq::new(a@.len(), |i: int| span_at(a@, master_view(b), axis, i)),
{
    let ghost want = Seq::new(a@.len(), |i: int| span_at(a@, master_view(b), axis, i));
    let mut spans: Vec<(u16, u16)> = Vec::new();
    let mut i: usize = 0;
    while i < a.len()
        invariant
            i <= a@.len(),
            b matches Some(b) ==> b@.len() == a@.len(),
            want == Seq::new(a@.len(), |i: int| span_at(a@, master_view(b), axis, i)),
            spans@ == want.take(i as int),
        decreases a@.len() - i,
    {
        let own: (u16, u16) = control_span(a[i], axis);
        let span: (u16, u16) = match b {
            Some(b) => {
                let other: (u16, u16) = control_span(b[i], axis);
                (min_half(own.0, other.0), max_half(own.1, other.1))
            },
            None => own,
        };
        spans.push(span);
        i = i + 1;
        assert(spans@ =~= want.take(i as int));
    }
    assert(spans@ =~= want);
    spans
}

/// A coordinate of either master lies in the curve's span, so everything between the two
/// does.
pub proof fn lemma_span_bounds(a: Seq<Curve>, b: Option<Seq<Curve>>, axis: Axis, i: int)
    requires
        0 <= i < a.len(),
        b matches Some(b) ==> b.len() == a.len(),
    ensures
        ({
            let (low, high) = span_at(a, b, axis, i);
            let inside = |v: u16|
                halves::half_rank(low) <= halves::half_rank(v) <= halves::half_rank(high);
            let (a0, a1, a2) = a[i].along(axis);
            &&& inside(a0) && inside(a1) && inside(a2)
            &&& b matches Some(b) ==> {
                let (b0, b1, b2) = b[i].along(axis);
                inside(b0) && inside(b1) && inside(b2)
            }
        }),
{
}

/// The second master, where it has as many curves as the first: the two are read a fixed
/// distance apart, so each curve needs its twin.
pub fn second_master(a: &Vec<Curve>, b: Option<Vec<Curve>>) -> (second: Option<Vec<Curve>>)
    ensures
        second == (match b {
            Some(b) => if b@.len() == a@.len() {
                Some(b)
            } else {
                None
            },
            None => None,
        }),
{
    match b {
        Some(b) => if b.len() == a.len() {
            Some(b)
        } else {
            None
        },
        None => None,
    }
}

/// A rectangle in em space, by halves.
#[derive(Clone, Copy, Debug, PartialEq, Eq, Structural)]
pub struct Bounds {
    pub left: u16,
    pub bottom: u16,
    pub right: u16,
    pub top: u16,
}

/// The range of the first `n` curves along an axis, over both masters.
pub open spec fn range_of(a: Seq<Curve>, b: Option<Seq<Curve>>, axis: Axis, n: int) -> (u16, u16)
    decreases n,
{
    if n <= 1 {
        span_at(a, b, axis, 0)
    } else {
        let before = range_of(a, b, axis, n - 1);
        let own = span_at(a, b, axis, n - 1);
        (halves::half_min(before.0, own.0), halves::half_max(before.1, own.1))
    }
}

/// The rectangle that the control points of both masters span.
pub open spec fn bounds_of(a: Seq<Curve>, b: Option<Seq<Curve>>) -> Bounds {
    let x = range_of(a, b, Axis::X, a.len() as int);
    let y = range_of(a, b, Axis::Y, a.len() as int);
    Bounds { left: x.0, bottom: y.0, right: x.1, top: y.1 }
}

fn range_along(a: &Vec<Curve>, b: Option<&Vec<Curve>>, axis: Axis) -> (range: (u16, u16))
    requires
        a@.len() > 0,
        b matches Some(b) ==> b@.len() == a@.len(),
    ensures
        range == range_of(a@, master_view(b), axis, a@.len() as int),
{
    let spans = spans(a, b, axis);
    let mut range: (u16, u16) = spans[0];
    let mut i: usize = 1;
    while i < spans.len()
        invariant
            spans@ == Seq::new(a@.len(), |i: int| span_at(a@, master_view(b), axis, i)),
            1 <= i <= spans@.len(),
            range == range_of(a@, master_view(b), axis, i as int),
        decreases spans@.len() - i,
    {
        range = (min_half(range.0, spans[i].0), max_half(range.1, spans[i].1));
        i += 1;
    }
    range
}

/// The rectangle that a glyph's control points span, over both masters, so that a quad of
/// its size covers the glyph at every blend. It is also the extent that the bands split.
pub fn bounds(a: &Vec<Curve>, b: Option<&Vec<Curve>>) -> (bounds: Bounds)
    requires
        a@.len() > 0,
        b matches Some(b) ==> b@.len() == a@.len(),
    ensures
        bounds == bounds_of(a@, master_view(b)),
{
    let x = range_along(a, b, Axis::X);
    let y = range_along(a, b, Axis::Y);
    Bounds { left: x.0, bottom: y.0, right: x.1, top: y.1 }
}

/// Every curve's span lies in the range of all of them.
pub proof fn lemma_range_bounds(a: Seq<Curve>, b: Option<Seq<Curve>>, axis: Axis, n: int, i: int)
    requires
        0 <= i < n <= a.len(),
    ensures
        halves::half_rank(range_of(a, b, axis, n).0) <= halves::half_rank(
            span_at(a, b, axis, i).0,
        ),
        halves::half_rank(span_at(a, b, axis, i).1) <= halves::half_rank(
            range_of(a, b, axis, n).1,
        ),
    decreases n,
{
    if n > 1 && i < n - 1 {
        lemma_range_bounds(a, b, axis, n - 1, i);
    }
}

/// Which bands a curve overlaps: from the first to the last.
#[derive(Clone, Copy, Debug, PartialEq, Eq, Structural)]
pub struct BandRange {
    pub first: usize,
    pub last: usize,
}

/// Where the `band`-th band of an extent starts, in sixteenths of [`halves::half_number`]'s
/// unit: the bands share the extent out evenly, and one without any height has bands that
/// are as good as flat.
pub open spec fn band_edge(extent: (u16, u16), band: int) -> int {
    let low = halves::half_number(extent.0);
    let high = halves::half_number(extent.1);
    16 * low + band * (if low < high {
        2 * (high - low)
    } else {
        1
    })
}

/// The span lies strictly on one side of a band.
pub open spec fn off_band(span: (u16, u16), extent: (u16, u16), band: int) -> bool {
    ||| 16 * halves::half_number(span.1) < band_edge(extent, band)
    ||| band_edge(extent, band + 1) < 16 * halves::half_number(span.0)
}

/// The range with every one of the first `n` bands in it that the span is not off.
pub open spec fn widened(range: BandRange, span: (u16, u16), extent: (u16, u16), n: int) -> BandRange
    decreases n,
{
    if n <= 0 {
        range
    } else {
        let before = widened(range, span, extent, n - 1);
        if off_band(span, extent, n - 1) {
            before
        } else {
            BandRange {
                first: if n - 1 < before.first {
                    (n - 1) as usize
                } else {
                    before.first
                },
                last: if before.last < n - 1 {
                    (n - 1) as usize
                } else {
                    before.last
                },
            }
        }
    }
}

/// The bands that a curve joins: those of its range, and every one that its span is not
/// off, where the extent is of numbers.
pub open spec fn joins(range: BandRange, span: (u16, u16), extent: (u16, u16)) -> BandRange {
    if halves::is_number(extent.0) && halves::is_number(extent.1) {
        widened(range, span, extent, BANDS as int)
    } else {
        range
    }
}

/// [`joins`] for every curve.
pub open spec fn all_join(
    ranges: Seq<BandRange>,
    spans: Seq<(u16, u16)>,
    extent: (u16, u16),
) -> Seq<BandRange> {
    Seq::new(spans.len(), |i: int| joins(ranges[i], spans[i], extent))
}

proof fn lemma_widened(range: BandRange, span: (u16, u16), extent: (u16, u16), n: int)
    requires
        0 <= n <= BANDS,
    ensures
        ({
            let after = widened(range, span, extent, n);
            &&& after.first <= range.first
            &&& range.last <= after.last
            &&& forall|band: int|
                0 <= band < n && !#[trigger] off_band(span, extent, band) ==> after.first <= band
                    <= after.last
            &&& (forall|band: int|
                0 <= band < n && !#[trigger] off_band(span, extent, band) ==> range.first <= band
                    <= range.last) ==> after == range
        }),
    decreases n,
{
    if n > 0 {
        lemma_widened(range, span, extent, n - 1);
    }
}

/// A curve joins the bands of its range and those it reaches, and where its range takes in
/// all that it reaches, no others.
pub proof fn lemma_joins(range: BandRange, span: (u16, u16), extent: (u16, u16), band: int)
    requires
        0 <= band < BANDS,
        halves::is_number(extent.0),
        halves::is_number(extent.1),
    ensures
        range.first <= band <= range.last ==> joins(range, span, extent).first <= band <= joins(
            range,
            span,
            extent,
        ).last,
        !off_band(span, extent, band) ==> joins(range, span, extent).first <= band <= joins(
            range,
            span,
            extent,
        ).last,
        (forall|k: int|
            0 <= k < BANDS && !#[trigger] off_band(span, extent, k) ==> range.first <= k
                <= range.last) ==> joins(range, span, extent) == range,
{
    lemma_widened(range, span, extent, BANDS as int);
}

/// [`joins`], computed.
fn join_bands(range: BandRange, span: (u16, u16), extent: (u16, u16)) -> (joined: BandRange)
    ensures
        joined == joins(range, span, extent),
{
    if !is_number_half(extent.0) || !is_number_half(extent.1) {
        return range;
    }
    let low: i64 = half_number_of(extent.0);
    let high: i64 = half_number_of(extent.1);
    let from: i64 = 16 * half_number_of(span.0);
    let to: i64 = 16 * half_number_of(span.1);
    let height: i64 = if low < high {
        2 * (high - low)
    } else {
        1
    };
    let mut joined = range;
    let mut edge: i64 = 16 * low;
    let mut band: usize = 0;
    while band < BANDS
        invariant
            band <= BANDS,
            joined == widened(range, span, extent, band as int),
            from == 16 * halves::half_number(span.0),
            to == 16 * halves::half_number(span.1),
            -0x4000_0000_0000 < 16 * low < 0x4000_0000_0000,
            0 < height < 0x1000_0000_0000,
            edge == 16 * low + band * height,
            forall|k: int| #[trigger] band_edge(extent, k) == 16 * low + k * height,
        decreases BANDS - band,
    {
        proof {
            assert((band + 1) * height == band * height + height) by (nonlinear_arith);
            assert(0 <= band * height <= 8 * height) by (nonlinear_arith)
                requires
                    0 <= band <= 8,
                    0 < height,
            ;
            assert(band_edge(extent, band as int) == edge);
            assert(band_edge(extent, band + 1) == edge + height);
        }
        let next: i64 = edge + height;
        if to >= edge && next >= from {
            if band < joined.first {
                joined.first = band;
            }
            if joined.last < band {
                joined.last = band;
            }
        }
        edge = next;
        band = band + 1;
    }
    joined
}

/// The bands of an extent that each curve joins.
///
/// The shader sums only the curves of a band's list for a ray inside the band, so no curve
/// that can cross such a ray may be missing from it. The ranges come out of arithmetic that
/// rounds; a range that takes in all that its curve reaches stays as it is.
pub fn joined_bands(
    ranges: &Vec<BandRange>,
    spans: &Vec<(u16, u16)>,
    extent: (u16, u16),
) -> (joined: Vec<BandRange>)
    requires
        ranges@.len() == spans@.len(),
    ensures
        joined@ == all_join(ranges@, spans@, extent),
{
    let mut joined: Vec<BandRange> = Vec::new();
    let mut i: usize = 0;
    while i < spans.len()
        invariant
            ranges@.len() == spans@.len(),
            i <= spans@.len(),
            joined@ == all_join(ranges@, spans@, extent).take(i as int),
        decreases spans@.len() - i,
    {
        joined.push(join_bands(ranges[i], spans[i], extent));
        i = i + 1;
    }
    assert(joined@ =~= all_join(ranges@, spans@, extent));
    joined
}

/// The curves of the first `n` that overlap a band, in order.
pub open spec fn members_of(ranges: Seq<BandRange>, band: int, n: int) -> Seq<u32>
    decreases n,
{
    if n <= 0 {
        Seq::empty()
    } else {
        let before = members_of(ranges, band, n - 1);
        if ranges[n - 1].first <= band <= ranges[n - 1].last {
            before.push((n - 1) as u32)
        } else {
            before
        }
    }
}

/// Curve indices per band: a curve joins every band its range overlaps.
pub fn band_lists(ranges: &Vec<BandRange>) -> (lists: Vec<Vec<u32>>)
    requires
        ranges@.len() <= u32::MAX,
    ensures
        lists@.len() == BANDS,
        forall|band: int|
            0 <= band < BANDS ==> (#[trigger] lists@[band])@ == members_of(
                ranges@,
                band,
                ranges@.len() as int,
            ),
{
    let mut lists: Vec<Vec<u32>> = Vec::new();
    let mut band: usize = 0;
    while band < BANDS
        invariant
            band <= BANDS,
            lists@.len() == band,
            ranges@.len() <= u32::MAX,
            forall|b: int|
                0 <= b < band ==> (#[trigger] lists@[b])@ == members_of(
                    ranges@,
                    b,
                    ranges@.len() as int,
                ),
        decreases BANDS - band,
    {
        let mut list: Vec<u32> = Vec::new();
        let mut i: usize = 0;
        assert(list@ =~= members_of(ranges@, band as int, 0));
        while i < ranges.len()
            invariant
                i <= ranges@.len() <= u32::MAX,
                list@ == members_of(ranges@, band as int, i as int),
            decreases ranges@.len() - i,
        {
            let range: BandRange = ranges[i];
            if range.first <= band && band <= range.last {
                list.push(i as u32);
            }
            i = i + 1;
        }
        lists.push(list);
        band = band + 1;
    }
    lists
}

proof fn lemma_members(ranges: Seq<BandRange>, band: int, n: int)
    requires
        0 <= n <= ranges.len() <= u32::MAX,
    ensures
        forall|k: int|
            0 <= k < members_of(ranges, band, n).len() ==> {
                let i = #[trigger] members_of(ranges, band, n)[k];
                i < n && ranges[i as int].first <= band <= ranges[i as int].last
            },
        forall|k: int, m: int|
            0 <= k < m < members_of(ranges, band, n).len() ==> (#[trigger] members_of(
                ranges,
                band,
                n,
            )[k]) < (#[trigger] members_of(ranges, band, n)[m]),
        forall|i: int|
            0 <= i < n && (#[trigger] ranges[i]).first <= band <= ranges[i].last ==> members_of(
                ranges,
                band,
                n,
            ).contains(i as u32),
        members_of(ranges, band, n).len() <= n,
    decreases n,
{
    if n > 0 {
        lemma_members(ranges, band, n - 1);
        let before = members_of(ranges, band, n - 1);
        let after = members_of(ranges, band, n);
        assert forall|i: int|
            0 <= i < n && (#[trigger] ranges[i]).first <= band
                <= ranges[i].last implies after.contains(i as u32) by {
            if i < n - 1 {
                assert(before.contains(i as u32));
                let k = choose|k: int| 0 <= k < before.len() && before[k] == i as u32;
                assert(after[k] == i as u32);
            } else {
                assert(after[before.len() as int] == i as u32);
            }
        }
    }
}

/// A curve is on a band's list exactly where it overlaps the band, and once.
pub proof fn lemma_band_membership(ranges: Seq<BandRange>, band: int, i: int)
    requires
        ranges.len() <= u32::MAX,
        0 <= i < ranges.len(),
    ensures
        members_of(ranges, band, ranges.len() as int).contains(i as u32) <==> ranges[i].first
            <= band <= ranges[i].last,
        members_of(ranges, band, ranges.len() as int).no_duplicates(),
{
    lemma_members(ranges, band, ranges.len() as int);
    let all = members_of(ranges, band, ranges.len() as int);
    if all.contains(i as u32) {
        let k = choose|k: int| 0 <= k < all.len() && all[k] == i as u32;
        assert(all[k] == i as u32);
    }
}

/// What a list is sorted by: keys in order, and equal keys by index.
pub open spec fn precedes(keys: Seq<i32>, a: u32, b: u32) -> bool {
    keys[a as int] < keys[b as int] || (keys[a as int] == keys[b as int] && a < b)
}

/// The list is in order.
pub open spec fn in_order(keys: Seq<i32>, list: Seq<u32>) -> bool {
    forall|i: int, j: int| 0 <= i < j < list.len() ==> precedes(keys, #[trigger] list[i], #[trigger] list[j])
}

/// The list holds the members in order. There is one such list.
pub open spec fn sorted_members(keys: Seq<i32>, members: Seq<u32>, list: Seq<u32>) -> bool {
    in_order(keys, list) && list.to_multiset() == members.to_multiset()
}

/// Sorts members by their keys, equal ones by index.
fn sort_members(keys: &Vec<i32>, members: &Vec<u32>) -> (list: Vec<u32>)
    requires
        forall|k: int| 0 <= k < members@.len() ==> #[trigger] members@[k] < keys@.len(),
        forall|k: int, m: int|
            0 <= k < m < members@.len() ==> #[trigger] members@[k] < #[trigger] members@[m],
    ensures
        sorted_members(keys@, members@, list@),
        list@.len() == members@.len(),
        forall|k: int| 0 <= k < list@.len() ==> #[trigger] list@[k] < keys@.len(),
{
    let mut list: Vec<u32> = Vec::new();
    let mut i: usize = 0;
    assert(members@.take(0) =~= Seq::empty());
    assert(list@ =~= Seq::empty());
    while i < members.len()
        invariant
            i <= members@.len(),
            list@.len() == i,
            forall|k: int| 0 <= k < members@.len() ==> #[trigger] members@[k] < keys@.len(),
            forall|k: int, m: int|
                0 <= k < m < members@.len() ==> #[trigger] members@[k] < #[trigger] members@[m],
            forall|k: int| 0 <= k < i ==> #[trigger] list@[k] < keys@.len(),
            i < members@.len() ==> forall|k: int| 0 <= k < i ==> #[trigger] list@[k] < members@[i as int],
            in_order(keys@, list@),
            list@.to_multiset() == members@.take(i as int).to_multiset(),
        decreases members@.len() - i,
    {
        let item: u32 = members[i];
        // The members come by ascending index, so an item goes behind its equals.
        let mut at: usize = i;
        while at > 0 && keys[list[at - 1] as usize] > keys[item as usize]
            invariant
                at <= i == list@.len(),
                item < keys@.len(),
                forall|k: int| 0 <= k < i ==> #[trigger] list@[k] < keys@.len(),
                forall|k: int| at <= k < i ==> keys@[#[trigger] list@[k] as int] > keys@[item as int],
            decreases at,
        {
            at = at - 1;
        }
        let ghost before = list@;
        list.insert(at, item);
        proof {
            let after = list@;
            assert(after == before.insert(at as int, item));
            assert forall|a: int, b: int| 0 <= a < b < after.len() implies precedes(
                keys@,
                #[trigger] after[a],
                #[trigger] after[b],
            ) by {
                let pa = if a < at {
                    a
                } else {
                    a - 1
                };
                let pb = if b < at {
                    b
                } else {
                    b - 1
                };
                if a != at && b != at {
                    assert(precedes(keys@, before[pa], before[pb]));
                } else if b == at {
                    // Everything in front has a key no greater: by order it is at most
                    // that of the one just in front.
                    if a < at - 1 {
                        assert(precedes(keys@, before[a], before[at - 1]));
                    }
                    assert(before[a] < members@[i as int]);
                } else {
                    assert(keys@[before[pb] as int] > keys@[item as int]);
                }
            }
            before.insert_ensures(at as int, item);
            lemma_insert_multiset(before, at as int, item);
            assert(members@.take(i + 1) =~= members@.take(i as int).push(item));
            members@.take(i as int).to_multiset_ensures();
            assert forall|k: int| 0 <= k < i + 1 implies #[trigger] after[k] < keys@.len() && (i + 1
                < members@.len() ==> after[k] < members@[i + 1]) by {
                if k < at {
                    assert(after[k] == before[k]);
                } else if k > at {
                    assert(after[k] == before[k - 1]);
                }
            }
        }
        i = i + 1;
    }
    assert(members@.take(i as int) =~= members@);
    list
}

proof fn lemma_insert_multiset(s: Seq<u32>, at: int, item: u32)
    requires
        0 <= at <= s.len(),
    ensures
        s.insert(at, item).to_multiset() == s.to_multiset().insert(item),
{
    s.insert_ensures(at, item);
    s.to_multiset_ensures();
    s.insert(at, item).to_multiset_ensures();
    assert(s.insert(at, item).remove(at) =~= s);
    assert(s.insert(at, item).to_multiset().remove(item) =~= s.to_multiset());
    assert(s.insert(at, item)[at] == item);
    assert(s.insert(at, item).contains(item));
    assert(s.insert(at, item).to_multiset() =~= s.to_multiset().insert(item));
}

/// Two lists that are in order and hold the same members are the same list.
pub proof fn lemma_sorted_unique(keys: Seq<i32>, members: Seq<u32>, a: Seq<u32>, b: Seq<u32>)
    requires
        sorted_members(keys, members, a),
        sorted_members(keys, members, b),
    ensures
        a == b,
    decreases a.len(),
{
    a.to_multiset_ensures();
    b.to_multiset_ensures();
    if a.len() > 0 {
        // The last of each is the greatest of the same members.
        let la = a.last();
        let lb = b.last();
        if la != lb {
            assert(a.contains(la));
            assert(a.to_multiset().count(la) > 0);
            assert(b.contains(la));
            let i = choose|i: int| 0 <= i < b.len() && b[i] == la;
            assert(precedes(keys, b[i], b[b.len() - 1]));
            assert(b.contains(lb));
            assert(b.to_multiset().count(lb) > 0);
            assert(a.contains(lb));
            let j = choose|j: int| 0 <= j < a.len() && a[j] == lb;
            assert(precedes(keys, a[j], a[a.len() - 1]));
            assert(false);
        }
        let a0 = a.drop_last();
        let b0 = b.drop_last();
        assert(a =~= a0.push(la));
        assert(b =~= b0.push(lb));
        a0.to_multiset_ensures();
        b0.to_multiset_ensures();
        assert(a0.to_multiset() =~= a.to_multiset().remove(la));
        assert(b0.to_multiset() =~= b.to_multiset().remove(lb));
        assert(in_order(keys, a0)) by {
            assert forall|i: int, j: int| 0 <= i < j < a0.len() implies precedes(
                keys,
                #[trigger] a0[i],
                #[trigger] a0[j],
            ) by {
                assert(precedes(keys, a[i], a[j]));
            }
        }
        assert(in_order(keys, b0)) by {
            assert forall|i: int, j: int| 0 <= i < j < b0.len() implies precedes(
                keys,
                #[trigger] b0[i],
                #[trigger] b0[j],
            ) by {
                assert(precedes(keys, b[i], b[j]));
            }
        }
        lemma_sorted_unique(keys, a0, a0, b0);
    } else {
        assert(b =~= a);
    }
}

/// One band's membership, ordered for both ray directions, plus the coordinate that
/// decides which direction a sample fires in.
pub struct Band {
    /// Members by decreasing maximum coordinate along the ray axis.
    pub descending: Vec<u32>,
    /// The same members by increasing minimum coordinate.
    pub ascending: Vec<u32>,
    /// Median of the members' midpoints along the ray axis, as a half.
    pub split: u16,
}

/// What a [`Band`] holds.
pub ghost struct BandState {
    pub descending: Seq<u32>,
    pub ascending: Seq<u32>,
    pub split: u16,
}

impl View for Band {
    type V = BandState;

    open spec fn view(&self) -> BandState {
        BandState {
            descending: self.descending@,
            ascending: self.ascending@,
            split: self.split,
        }
    }
}

/// Keys by which a list descends by maximum.
pub open spec fn falling_keys(spans: Seq<(u16, u16)>) -> Seq<i32> {
    Seq::new(spans.len(), |i: int| (-halves::half_rank(spans[i].1)) as i32)
}

/// Keys by which a list ascends by minimum.
pub open spec fn rising_keys(spans: Seq<(u16, u16)>) -> Seq<i32> {
    Seq::new(spans.len(), |i: int| halves::half_rank(spans[i].0) as i32)
}

/// Keys by which a list ascends by midpoint.
pub open spec fn middle_keys(mids: Seq<u16>) -> Seq<i32> {
    Seq::new(mids.len(), |i: int| halves::half_rank(mids[i]) as i32)
}

/// The coordinate splits the members: it is the median of their midpoints, the upper one
/// of two, or zero where there are none.
pub open spec fn is_median(members: Seq<u32>, mids: Seq<u16>, split: u16) -> bool {
    if members.len() == 0 {
        split == 0
    } else {
        exists|list: Seq<u32>| #[trigger]
            sorted_members(middle_keys(mids), members, list) && split == mids[list[members.len()
                as int / 2] as int]
    }
}

/// The band holds the members in both orders, and their median.
pub open spec fn is_band(
    band: BandState,
    members: Seq<u32>,
    spans: Seq<(u16, u16)>,
    mids: Seq<u16>,
) -> bool {
    &&& sorted_members(falling_keys(spans), members, band.descending)
    &&& sorted_members(rising_keys(spans), members, band.ascending)
    &&& is_median(members, mids, band.split)
}

/// The bands along one axis. `spans` and `mids` are the curves' ranges and midpoints
/// along the other axis, which the rays run along.
pub open spec fn is_banding(
    table: Seq<BandState>,
    ranges: Seq<BandRange>,
    spans: Seq<(u16, u16)>,
    mids: Seq<u16>,
) -> bool {
    &&& table.len() == BANDS
    &&& forall|band: int|
        0 <= band < BANDS ==> is_band(
            #[trigger] table[band],
            members_of(ranges, band, ranges.len() as int),
            spans,
            mids,
        )
}

/// The views of a table of bands.
pub open spec fn band_states(table: Seq<Band>) -> Seq<BandState> {
    Seq::new(table.len(), |i: int| table[i]@)
}

/// Every list of the table holds curves among the first `count`, each at most once.
pub open spec fn table_fits(table: Seq<BandState>, count: int) -> bool {
    forall|k: int|
        0 <= k < table.len() ==> {
            let band = #[trigger] table[k];
            &&& band.descending.len() == band.ascending.len() <= count
            &&& forall|i: int| 0 <= i < band.descending.len() ==> #[trigger] band.descending[i] < count
            &&& forall|i: int| 0 <= i < band.ascending.len() ==> #[trigger] band.ascending[i] < count
        }
}

/// Where to split a band: the median of its members' midpoints. A sample sitting there has
/// about half the band's curves ahead of it and half behind. An empty band is never read,
/// and zero is as good a coordinate as any for it.
fn median_split(members: &Vec<u32>, mids: &Vec<u16>, keys: &Vec<i32>) -> (split: u16)
    requires
        keys@ == middle_keys(mids@),
        forall|k: int| 0 <= k < members@.len() ==> #[trigger] members@[k] < mids@.len(),
        forall|k: int, m: int|
            0 <= k < m < members@.len() ==> #[trigger] members@[k] < #[trigger] members@[m],
    ensures
        is_median(members@, mids@, split),
{
    if members.len() == 0 {
        return 0;
    }
    let list: Vec<u32> = sort_members(keys, members);
    let split: u16 = mids[list[members.len() / 2] as usize];
    assert(sorted_members(middle_keys(mids@), members@, list@));
    split
}

/// The bands along one axis, with each band's lists sorted for the early-out and its median
/// split.
///
/// The spans cover both masters, which is what keeps the early-out conservative at every
/// blend.
pub fn bands(ranges: &Vec<BandRange>, spans: &Vec<(u16, u16)>, mids: &Vec<u16>) -> (table: Vec<
    Band,
>)
    requires
        ranges@.len() == spans@.len() == mids@.len() <= u32::MAX,
    ensures
        is_banding(band_states(table@), ranges@, spans@, mids@),
        table_fits(band_states(table@), ranges@.len() as int),
{
    let mut falling: Vec<i32> = Vec::new();
    let mut rising: Vec<i32> = Vec::new();
    let mut middle: Vec<i32> = Vec::new();
    let mut i: usize = 0;
    while i < spans.len()
        invariant
            i <= spans@.len() == mids@.len(),
            falling@ == falling_keys(spans@).take(i as int),
            rising@ == rising_keys(spans@).take(i as int),
            middle@ == middle_keys(mids@).take(i as int),
        decreases spans@.len() - i,
    {
        falling.push(-half_rank_of(spans[i].1));
        rising.push(half_rank_of(spans[i].0));
        middle.push(half_rank_of(mids[i]));
        i = i + 1;
        assert(falling@ =~= falling_keys(spans@).take(i as int));
        assert(rising@ =~= rising_keys(spans@).take(i as int));
        assert(middle@ =~= middle_keys(mids@).take(i as int));
    }
    assert(falling@ =~= falling_keys(spans@));
    assert(rising@ =~= rising_keys(spans@));
    assert(middle@ =~= middle_keys(mids@));
    let lists: Vec<Vec<u32>> = band_lists(ranges);
    let mut table: Vec<Band> = Vec::new();
    let mut band: usize = 0;
    let ghost count = ranges@.len() as int;
    while band < BANDS
        invariant
            band <= BANDS,
            lists@.len() == BANDS,
            count == ranges@.len() == spans@.len() == mids@.len() <= u32::MAX,
            falling@ == falling_keys(spans@),
            rising@ == rising_keys(spans@),
            middle@ == middle_keys(mids@),
            forall|b: int|
                0 <= b < BANDS ==> (#[trigger] lists@[b])@ == members_of(ranges@, b, count),
            table@.len() == band,
            forall|b: int|
                0 <= b < band ==> is_band(
                    (#[trigger] table@[b])@,
                    members_of(ranges@, b, count),
                    spans@,
                    mids@,
                ),
            table_fits(band_states(table@), count),
        decreases BANDS - band,
    {
        let members: &Vec<u32> = &lists[band];
        proof {
            lemma_members(ranges@, band as int, count);
        }
        let next = Band {
            descending: sort_members(&falling, members),
            ascending: sort_members(&rising, members),
            split: median_split(members, mids, &middle),
        };
        let ghost before = band_states(table@);
        table.push(next);
        band = band + 1;
        assert forall|k: int| 0 <= k < table@.len() implies {
            let b = #[trigger] band_states(table@)[k];
            &&& b.descending.len() == b.ascending.len() <= count
            &&& forall|i: int| 0 <= i < b.descending.len() ==> #[trigger] b.descending[i] < count
            &&& forall|i: int| 0 <= i < b.ascending.len() ==> #[trigger] b.ascending[i] < count
        } by {
            if k < before.len() {
                assert(before[k] == band_states(table@)[k]);
            }
        }
    }
    table
}

/// Where each curve of a glyph is along one axis: the bands of the extent that it comes
/// near enough to, and its middle as a half.
pub struct AxisPlaces {
    pub extent: (u16, u16),
    pub ranges: Vec<BandRange>,
    pub mids: Vec<u16>,
}

/// A glyph's band table: the bands along y, then those along x. Rays run across the banding
/// axis, so the bands along y are sorted by the curves' ranges along x, and the other way
/// round. A curve is in every band that it reaches.
pub open spec fn is_table(
    table: Seq<BandState>,
    a: Seq<Curve>,
    b: Option<Seq<Curve>>,
    y: AxisPlaces,
    x: AxisPlaces,
) -> bool {
    let along_x = Seq::new(a.len(), |i: int| span_at(a, b, Axis::X, i));
    let along_y = Seq::new(a.len(), |i: int| span_at(a, b, Axis::Y, i));
    &&& table.len() == 2 * BANDS
    &&& is_banding(
        table.take(BANDS as int),
        all_join(y.ranges@, along_y, y.extent),
        along_x,
        x.mids@,
    )
    &&& is_banding(
        table.skip(BANDS as int),
        all_join(x.ranges@, along_x, x.extent),
        along_y,
        y.mids@,
    )
}

/// The band table of a glyph, from where its curves are along each axis.
pub fn band_table(a: &Vec<Curve>, b: Option<&Vec<Curve>>, y: &AxisPlaces, x: &AxisPlaces) -> (table:
    Vec<Band>)
    requires
        a@.len() <= u32::MAX,
        b matches Some(b) ==> b@.len() == a@.len(),
        y.ranges@.len() == y.mids@.len() == a@.len(),
        x.ranges@.len() == x.mids@.len() == a@.len(),
    ensures
        is_table(band_states(table@), a@, master_view(b), *y, *x),
        table_fits(band_states(table@), a@.len() as int),
{
    let along_x = spans(a, b, Axis::X);
    let along_y = spans(a, b, Axis::Y);
    let mut table = bands(&joined_bands(&y.ranges, &along_y, y.extent), &along_x, &x.mids);
    let mut other = bands(&joined_bands(&x.ranges, &along_x, x.extent), &along_y, &y.mids);
    let ghost first = band_states(table@);
    let ghost second = band_states(other@);
    table.append(&mut other);
    proof {
        assert(band_states(table@) =~= first + second);
        assert((first + second).take(BANDS as int) =~= first);
        assert((first + second).skip(BANDS as int) =~= second);
    }
    table
}

/// Every control point of a curve along an axis, in either master, ranks below.
pub open spec fn lies_below(a: Seq<Curve>, b: Option<Seq<Curve>>, axis: Axis, i: int, rank: int) -> bool {
    let (a0, a1, a2) = a[i].along(axis);
    &&& halves::half_rank(a0) < rank && halves::half_rank(a1) < rank && halves::half_rank(a2)
        < rank
    &&& b matches Some(b) ==> {
        let (b0, b1, b2) = b[i].along(axis);
        halves::half_rank(b0) < rank && halves::half_rank(b1) < rank && halves::half_rank(b2)
            < rank
    }
}

/// Every control point of a curve along an axis, in either master, ranks above.
pub open spec fn lies_above(a: Seq<Curve>, b: Option<Seq<Curve>>, axis: Axis, i: int, rank: int) -> bool {
    let (a0, a1, a2) = a[i].along(axis);
    &&& rank < halves::half_rank(a0) && rank < halves::half_rank(a1) && rank < halves::half_rank(
        a2,
    )
    &&& b matches Some(b) ==> {
        let (b0, b1, b2) = b[i].along(axis);
        rank < halves::half_rank(b0) && rank < halves::half_rank(b1) && rank < halves::half_rank(
            b2,
        )
    }
}

proof fn lemma_span_decides(a: Seq<Curve>, b: Option<Seq<Curve>>, axis: Axis, i: int, rank: int)
    requires
        0 <= i < a.len(),
        b matches Some(b) ==> b.len() == a.len(),
    ensures
        halves::half_rank(span_at(a, b, axis, i).1) < rank ==> lies_below(a, b, axis, i, rank),
        rank < halves::half_rank(span_at(a, b, axis, i).0) ==> lies_above(a, b, axis, i, rank),
{
    lemma_span_bounds(a, b, axis, i);
}

/// A walk along a band's list can stop early. Where the curve at one place of the
/// descending list lies wholly below a coordinate, so does every curve after it, and where
/// the curve at one place of the ascending list lies wholly above, so does every curve after
/// it: whatever control point of either master is taken, and so at every blend.
#[verifier::spinoff_prover]
pub proof fn lemma_early_out(
    a: Seq<Curve>,
    b: Option<Seq<Curve>>,
    axis: Axis,
    members: Seq<u32>,
    mids: Seq<u16>,
    band: BandState,
    rank: int,
    i: int,
    j: int,
)
    requires
        b matches Some(b) ==> b.len() == a.len(),
        is_band(band, members, Seq::new(a.len(), |i: int| span_at(a, b, axis, i)), mids),
        table_fits(seq![band], a.len() as int),
        0 <= i <= j < band.descending.len(),
    ensures
        halves::half_rank(span_at(a, b, axis, band.descending[i] as int).1) < rank ==> lies_below(
            a,
            b,
            axis,
            band.descending[j] as int,
            rank,
        ),
        rank < halves::half_rank(span_at(a, b, axis, band.ascending[i] as int).0) ==> lies_above(
            a,
            b,
            axis,
            band.ascending[j] as int,
            rank,
        ),
{
    let spans = Seq::new(a.len(), |i: int| span_at(a, b, axis, i));
    assert(seq![band][0] == band);
    let down = band.descending[j] as int;
    let up = band.ascending[j] as int;
    if i < j {
        assert(precedes(falling_keys(spans), band.descending[i], band.descending[j]));
        assert(precedes(rising_keys(spans), band.ascending[i], band.ascending[j]));
    }
    lemma_span_decides(a, b, axis, down, rank);
    lemma_span_decides(a, b, axis, up, rank);
}

/// The control points of a curve along an axis are strictly on one side of a band: all of
/// them, in both masters, below it, or all of them above it.
pub open spec fn misses_band(
    a: Seq<Curve>,
    b: Option<Seq<Curve>>,
    axis: Axis,
    i: int,
    extent: (u16, u16),
    band: int,
) -> bool {
    let below = |v: u16| 16 * halves::half_number(v) < band_edge(extent, band);
    let above = |v: u16| band_edge(extent, band + 1) < 16 * halves::half_number(v);
    let (a0, a1, a2) = a[i].along(axis);
    ||| {
        &&& below(a0) && below(a1) && below(a2)
        &&& b matches Some(b) ==> {
            let (b0, b1, b2) = b[i].along(axis);
            below(b0) && below(b1) && below(b2)
        }
    }
    ||| {
        &&& above(a0) && above(a1) && above(a2)
        &&& b matches Some(b) ==> {
            let (b0, b1, b2) = b[i].along(axis);
            above(b0) && above(b1) && above(b2)
        }
    }
}

proof fn lemma_off_band_misses(
    a: Seq<Curve>,
    b: Option<Seq<Curve>>,
    axis: Axis,
    i: int,
    extent: (u16, u16),
    band: int,
)
    requires
        0 <= i < a.len(),
        b matches Some(b) ==> b.len() == a.len(),
        off_band(span_at(a, b, axis, i), extent, band),
    ensures
        misses_band(a, b, axis, i, extent, band),
{
    lemma_span_bounds(a, b, axis, i);
    let (low, high) = span_at(a, b, axis, i);
    let (a0, a1, a2) = a[i].along(axis);
    halves::lemma_half_number_order(low, a0);
    halves::lemma_half_number_order(low, a1);
    halves::lemma_half_number_order(low, a2);
    halves::lemma_half_number_order(a0, high);
    halves::lemma_half_number_order(a1, high);
    halves::lemma_half_number_order(a2, high);
    if let Some(b) = b {
        let (b0, b1, b2) = b[i].along(axis);
        halves::lemma_half_number_order(low, b0);
        halves::lemma_half_number_order(low, b1);
        halves::lemma_half_number_order(low, b2);
        halves::lemma_half_number_order(b0, high);
        halves::lemma_half_number_order(b1, high);
        halves::lemma_half_number_order(b2, high);
    }
}

/// What a band leaves out cannot cross a ray inside it: a curve that is on neither list of a
/// band has all its control points, in both masters, strictly on one side of the band. The
/// control points bound the curve, so the curve does too, at every blend.
pub proof fn lemma_left_out_misses_band(
    table: Seq<BandState>,
    a: Seq<Curve>,
    b: Option<Seq<Curve>>,
    y: AxisPlaces,
    x: AxisPlaces,
    axis: Axis,
    band: int,
    i: int,
)
    requires
        a.len() <= u32::MAX,
        b matches Some(b) ==> b.len() == a.len(),
        is_table(table, a, b, y, x),
        0 <= band < BANDS,
        0 <= i < a.len(),
    ensures
        ({
            let (entry, extent) = match axis {
                Axis::Y => (table[band], y.extent),
                Axis::X => (table[BANDS + band], x.extent),
            };
            &&& entry.descending.contains(i as u32) <==> entry.ascending.contains(i as u32)
            &&& halves::is_number(extent.0) && halves::is_number(extent.1)
                && !entry.descending.contains(i as u32) ==> misses_band(
                a,
                b,
                axis,
                i,
                extent,
                band,
            )
        }),
{
    let spans = Seq::new(a.len(), |i: int| span_at(a, b, axis, i));
    let (entry, extent, given) = match axis {
        Axis::Y => {
            assert(table.take(BANDS as int)[band] == table[band]);
            (table[band], y.extent, y.ranges@)
        },
        Axis::X => {
            assert(table.skip(BANDS as int)[band] == table[BANDS + band]);
            (table[BANDS + band], x.extent, x.ranges@)
        },
    };
    let ranges = all_join(given, spans, extent);
    let members = members_of(ranges, band, ranges.len() as int);
    assert(entry.descending.to_multiset() == members.to_multiset());
    assert(entry.ascending.to_multiset() == members.to_multiset());
    vstd::seq_lib::to_multiset_contains(entry.descending, i as u32);
    vstd::seq_lib::to_multiset_contains(entry.ascending, i as u32);
    vstd::seq_lib::to_multiset_contains(members, i as u32);
    lemma_band_membership(ranges, band, i);
    if halves::is_number(extent.0) && halves::is_number(extent.1) && !members.contains(i as u32) {
        lemma_joins(given[i], spans[i], extent, band);
        lemma_off_band_misses(a, b, axis, i, extent, band);
    }
}

/// What a glyph's band table says of its curves. There are [`BANDS`] bands along each axis.
/// Each of a band's two lists holds the same curves, each one once: those that join the
/// band. The descending list goes by falling maximum along the ray axis, the ascending one
/// by rising minimum. A curve that is on neither has all its control points along the
/// banding axis, in both masters, strictly on one side of the band.
pub proof fn lemma_band_table(
    table: Seq<BandState>,
    a: Seq<Curve>,
    b: Option<Seq<Curve>>,
    y: AxisPlaces,
    x: AxisPlaces,
    axis: Axis,
    band: int,
)
    requires
        a.len() <= u32::MAX,
        b matches Some(b) ==> b.len() == a.len(),
        is_table(table, a, b, y, x),
        table_fits(table, a.len() as int),
        0 <= band < BANDS,
    ensures
        table.len() == 2 * BANDS,
        ({
            let (entry, places, ray) = match axis {
                Axis::Y => (table[band], y, Axis::X),
                Axis::X => (table[BANDS + band], x, Axis::Y),
            };
            let extent = places.extent;
            let rank = |v: u16| halves::half_rank(v);
            &&& entry.descending.no_duplicates() && entry.ascending.no_duplicates()
            &&& entry.descending.to_multiset() == entry.ascending.to_multiset()
            &&& forall|i: int|
                #![trigger entry.descending.contains(i as u32)]
                0 <= i < a.len() ==> {
                    let joined = joins(places.ranges@[i], span_at(a, b, axis, i), extent);
                    &&& entry.descending.contains(i as u32) <==> joined.first <= band <= joined.last
                    &&& halves::is_number(extent.0) && halves::is_number(extent.1)
                        && !entry.descending.contains(i as u32) ==> misses_band(
                        a,
                        b,
                        axis,
                        i,
                        extent,
                        band,
                    )
                }
            &&& forall|j: int, k: int|
                0 <= j < k < entry.descending.len() ==> rank(
                    span_at(a, b, ray, #[trigger] entry.descending[j] as int).1,
                ) >= rank(span_at(a, b, ray, #[trigger] entry.descending[k] as int).1)
            &&& forall|j: int, k: int|
                0 <= j < k < entry.ascending.len() ==> rank(
                    span_at(a, b, ray, #[trigger] entry.ascending[j] as int).0,
                ) <= rank(span_at(a, b, ray, #[trigger] entry.ascending[k] as int).0)
        }),
{
    let (entry, places, ray) = match axis {
        Axis::Y => {
            assert(table.take(BANDS as int)[band] == table[band]);
            (table[band], y, Axis::X)
        },
        Axis::X => {
            assert(table.skip(BANDS as int)[band] == table[BANDS + band]);
            (table[BANDS + band], x, Axis::Y)
        },
    };
    let along = Seq::new(a.len(), |i: int| span_at(a, b, axis, i));
    let over = Seq::new(a.len(), |i: int| span_at(a, b, ray, i));
    let ranges = all_join(places.ranges@, along, places.extent);
    let members = members_of(ranges, band, ranges.len() as int);
    assert(is_band(entry, members, over, match axis {
        Axis::Y => x.mids@,
        Axis::X => y.mids@,
    }));
    assert forall|i: int|
        #![trigger entry.descending.contains(i as u32)]
        0 <= i < a.len() implies {
        let joined = joins(places.ranges@[i], span_at(a, b, axis, i), places.extent);
        &&& entry.descending.contains(i as u32) <==> joined.first <= band <= joined.last
        &&& halves::is_number(places.extent.0) && halves::is_number(places.extent.1)
            && !entry.descending.contains(i as u32) ==> misses_band(
            a,
            b,
            axis,
            i,
            places.extent,
            band,
        )
    } by {
        lemma_left_out_misses_band(table, a, b, y, x, axis, band, i);
        lemma_band_membership(ranges, band, i);
        vstd::seq_lib::to_multiset_contains(entry.descending, i as u32);
        vstd::seq_lib::to_multiset_contains(members, i as u32);
    }
    assert forall|j: int, k: int| 0 <= j < k < entry.descending.len() implies halves::half_rank(
        span_at(a, b, ray, #[trigger] entry.descending[j] as int).1,
    ) >= halves::half_rank(span_at(a, b, ray, #[trigger] entry.descending[k] as int).1)
        && entry.descending[j] != entry.descending[k] by {
        assert(precedes(falling_keys(over), entry.descending[j], entry.descending[k]));
    }
    assert forall|j: int, k: int| 0 <= j < k < entry.ascending.len() implies halves::half_rank(
        span_at(a, b, ray, #[trigger] entry.ascending[j] as int).0,
    ) <= halves::half_rank(span_at(a, b, ray, #[trigger] entry.ascending[k] as int).0)
        && entry.ascending[j] != entry.ascending[k] by {
        assert(precedes(rising_keys(over), entry.ascending[j], entry.ascending[k]));
    }
}

/// The number of texels, or of curves and contours, rounded up to an even one.
pub open spec fn even_up(n: int) -> int {
    (n + 1) / 2 * 2
}

/// Texels one master's records occupy in a banded block: one per curve, one per contour
/// terminator, rounded up so that the region stays even.
pub fn shared_texels(count: usize, contours: usize) -> (texels: u32)
    requires
        count + contours < u32::MAX,
    ensures
        texels == even_up(count + contours),
{
    let n: usize = count + contours;
    (n + n % TEXELS_PER_CURVE) as u32
}

/// The curves of the first `k` contours.
pub open spec fn curves_in(contours: Seq<u32>, k: int) -> int
    decreases k,
{
    if k <= 0 {
        0
    } else {
        curves_in(contours, k - 1) + contours[k - 1]
    }
}

/// The contours are not empty and share the curves out.
pub open spec fn contours_fit(contours: Seq<u32>, count: int) -> bool {
    &&& curves_in(contours, contours.len() as int) == count
    &&& forall|k: int| 0 <= k < contours.len() ==> #[trigger] contours[k] > 0
}

/// The `i`-th curve ends where the next one starts.
pub open spec fn joined(curves: Seq<Curve>, i: int) -> bool {
    curves[i].meets(curves[i + 1])
}

/// The `i`-th curve and the next one are both of the `k`-th contour.
pub open spec fn neighbours(contours: Seq<u32>, k: int, i: int) -> bool {
    &&& 0 <= k < contours.len()
    &&& curves_in(contours, k) <= i
    &&& i + 1 < curves_in(contours, k + 1)
}

/// Within each contour a curve ends where the next one starts.
pub open spec fn contours_chain(curves: Seq<Curve>, contours: Seq<u32>) -> bool {
    forall|k: int, i: int| #[trigger] neighbours(contours, k, i) ==> joined(curves, i)
}

/// The texel of a curve in a banded block: its first two control points.
pub open spec fn curve_texel(curve: Curve) -> Seq<u16> {
    seq![curve.x0, curve.y0, curve.x1, curve.y1]
}

/// The texel that ends a contour: the last curve's third control point.
pub open spec fn end_texel(curve: Curve) -> Seq<u16> {
    seq![curve.x2, curve.y2, 0, 0]
}

/// The texels of `n` curves from the `start`-th on.
pub open spec fn curve_lanes(curves: Seq<Curve>, start: int, n: int) -> Seq<u16>
    decreases n,
{
    if n <= 0 {
        Seq::empty()
    } else {
        curve_lanes(curves, start, n - 1) + curve_texel(curves[start + n - 1])
    }
}

/// The texels of the first `k` contours, each followed by its end.
pub open spec fn contour_lanes(curves: Seq<Curve>, contours: Seq<u32>, k: int) -> Seq<u16>
    decreases k,
{
    if k <= 0 {
        Seq::empty()
    } else {
        let start = curves_in(contours, k - 1);
        let n = contours[k - 1] as int;
        contour_lanes(curves, contours, k - 1) + curve_lanes(curves, start, n) + end_texel(
            curves[start + n - 1],
        )
    }
}

/// `n` zeros.
pub open spec fn zeros(n: int) -> Seq<u16> {
    Seq::new(n as nat, |i: int| 0u16)
}

/// One master's records with shared end points, padded to an even number of texels.
pub open spec fn shared_lanes(curves: Seq<Curve>, contours: Seq<u32>) -> Seq<u16> {
    let texels = curves.len() + contours.len();
    contour_lanes(curves, contours, contours.len() as int) + zeros(
        4 * (even_up(texels as int) - texels),
    )
}

/// The contour that the `i`-th curve belongs to, from the `k`-th on.
pub open spec fn contour_from(contours: Seq<u32>, i: int, k: int) -> int
    decreases contours.len() - k,
{
    if k >= contours.len() || i < curves_in(contours, k + 1) {
        k
    } else {
        contour_from(contours, i, k + 1)
    }
}

/// The offset of the `i`-th curve's texel among the records: one for each curve and each
/// contour's end before it.
pub open spec fn texel_at(contours: Seq<u32>, i: int) -> int {
    i + contour_from(contours, i, 0)
}

proof fn lemma_curves_in(contours: Seq<u32>, a: int, b: int)
    requires
        0 <= a <= b <= contours.len(),
    ensures
        0 <= curves_in(contours, a) <= curves_in(contours, b),
    decreases b,
{
    if b > 0 {
        if a < b {
            lemma_curves_in(contours, a, b - 1);
        } else {
            lemma_curves_in(contours, a - 1, b - 1);
        }
    }
}

/// There are no more contours than curves.
pub proof fn lemma_contours_counted(contours: Seq<u32>, k: int)
    requires
        0 <= k <= contours.len(),
        forall|k: int| 0 <= k < contours.len() ==> #[trigger] contours[k] > 0,
    ensures
        k <= curves_in(contours, k),
    decreases k,
{
    if k > 0 {
        lemma_contours_counted(contours, k - 1);
    }
}

proof fn lemma_contour_from(contours: Seq<u32>, i: int, k: int, m: int)
    requires
        0 <= k <= m < contours.len(),
        curves_in(contours, m) <= i < curves_in(contours, m + 1),
    ensures
        contour_from(contours, i, k) == m,
    decreases m - k,
{
    if k < m {
        lemma_curves_in(contours, k + 1, m);
        lemma_contour_from(contours, i, k + 1, m);
    }
}

proof fn lemma_curve_lanes(curves: Seq<Curve>, start: int, n: int, j: int)
    requires
        0 <= j < n,
    ensures
        curve_lanes(curves, start, n).len() == 4 * n,
        curve_lanes(curves, start, n).subrange(4 * j, 4 * j + 4) == curve_texel(curves[start + j]),
    decreases n,
{
    let init = curve_lanes(curves, start, n - 1);
    let all = curve_lanes(curves, start, n);
    lemma_curve_lanes_len(curves, start, n - 1);
    if j < n - 1 {
        lemma_curve_lanes(curves, start, n - 1, j);
        assert(all.subrange(4 * j, 4 * j + 4) =~= init.subrange(4 * j, 4 * j + 4));
    } else {
        assert(all.subrange(4 * j, 4 * j + 4) =~= curve_texel(curves[start + j]));
    }
}

proof fn lemma_curve_lanes_len(curves: Seq<Curve>, start: int, n: int)
    requires
        0 <= n,
    ensures
        curve_lanes(curves, start, n).len() == 4 * n,
    decreases n,
{
    if n > 0 {
        lemma_curve_lanes_len(curves, start, n - 1);
    }
}

proof fn lemma_contour_lanes_len(curves: Seq<Curve>, contours: Seq<u32>, k: int)
    requires
        0 <= k <= contours.len(),
    ensures
        contour_lanes(curves, contours, k).len() == 4 * (curves_in(contours, k) + k),
    decreases k,
{
    if k > 0 {
        lemma_contour_lanes_len(curves, contours, k - 1);
        lemma_curve_lanes_len(curves, curves_in(contours, k - 1), contours[k - 1] as int);
    }
}

proof fn lemma_contour_lanes_prefix(curves: Seq<Curve>, contours: Seq<u32>, k: int, m: int)
    requires
        0 <= k <= m <= contours.len(),
    ensures
        contour_lanes(curves, contours, k).is_prefix_of(contour_lanes(curves, contours, m)),
    decreases m,
{
    let a = contour_lanes(curves, contours, k);
    let b = contour_lanes(curves, contours, m);
    if k < m {
        lemma_contour_lanes_prefix(curves, contours, k, m - 1);
        let c = contour_lanes(curves, contours, m - 1);
        assert(a =~= b.take(a.len() as int));
    } else {
        assert(a =~= b.take(a.len() as int));
    }
}

/// A curve is read back from its texel and the next one: the texel at its offset holds its
/// first two control points, and the texel after it starts with its third.
#[verifier::spinoff_prover]
pub proof fn lemma_curve_readback(curves: Seq<Curve>, contours: Seq<u32>, i: int)
    requires
        contours_fit(contours, curves.len() as int),
        contours_chain(curves, contours),
        0 <= i < curves.len(),
    ensures
        ({
            let lanes = shared_lanes(curves, contours);
            let t = texel_at(contours, i);
            &&& 0 <= t
            &&& 4 * (t + 2) <= lanes.len()
            &&& lanes.subrange(4 * t, 4 * t + 4) == curve_texel(curves[i])
            &&& lanes[4 * t + 4] == curves[i].x2
            &&& lanes[4 * t + 5] == curves[i].y2
        }),
{
    lemma_find_contour(contours, i, contours.len() as int);
    let m = choose|m: int|
        0 <= m < contours.len() && #[trigger] curves_in(contours, m) <= i < curves_in(
            contours,
            m + 1,
        );
    lemma_contour_from(contours, i, 0, m);
    let j = i - curves_in(contours, m);
    let lanes = shared_lanes(curves, contours);
    let upto = contour_lanes(curves, contours, m + 1);
    let all = contour_lanes(curves, contours, contours.len() as int);
    let t = texel_at(contours, i);
    lemma_contour_readback(curves, contours, m, j);
    lemma_contour_lanes_prefix(curves, contours, m + 1, contours.len() as int);
    lemma_curves_in(contours, 0, m);
    assert(upto =~= all.take(upto.len() as int));
    assert(upto =~= lanes.take(upto.len() as int));
    assert(lanes.subrange(4 * t, 4 * t + 4) =~= upto.subrange(4 * t, 4 * t + 4));
}

#[verifier::spinoff_prover]
proof fn lemma_contour_readback(curves: Seq<Curve>, contours: Seq<u32>, m: int, j: int)
    requires
        contours_fit(contours, curves.len() as int),
        contours_chain(curves, contours),
        0 <= m < contours.len(),
        0 <= j < contours[m],
    ensures
        ({
            let upto = contour_lanes(curves, contours, m + 1);
            let i = curves_in(contours, m) + j;
            let t = i + m;
            &&& 4 * (t + 2) <= upto.len()
            &&& upto.subrange(4 * t, 4 * t + 4) == curve_texel(curves[i])
            &&& upto[4 * t + 4] == curves[i].x2
            &&& upto[4 * t + 5] == curves[i].y2
        }),
{
    let start = curves_in(contours, m);
    let n = contours[m] as int;
    let i = start + j;
    let t = i + m;
    let upto = contour_lanes(curves, contours, m + 1);
    let lead = contour_lanes(curves, contours, m);
    let own = curve_lanes(curves, start, n);
    lemma_contour_lanes_len(curves, contours, m);
    lemma_curves_in(contours, 0, m);
    lemma_curve_lanes(curves, start, n, j);
    assert(upto == lead + own + end_texel(curves[start + n - 1]));
    assert(upto.subrange(4 * t, 4 * t + 4) =~= own.subrange(4 * j, 4 * j + 4));
    if j < n - 1 {
        lemma_curve_lanes(curves, start, n, j + 1);
        let next = own.subrange(4 * (j + 1), 4 * (j + 1) + 4);
        assert(next[0] == own[4 * j + 4]);
        assert(next[1] == own[4 * j + 5]);
        assert(neighbours(contours, m, i));
        assert(joined(curves, i));
    }
}

proof fn lemma_find_contour(contours: Seq<u32>, i: int, k: int)
    requires
        0 <= k <= contours.len(),
        0 <= i < curves_in(contours, k),
    ensures
        exists|m: int|
            0 <= m < k && #[trigger] curves_in(contours, m) <= i < curves_in(contours, m + 1),
    decreases k,
{
    if k > 0 {
        if i < curves_in(contours, k - 1) {
            lemma_find_contour(contours, i, k - 1);
            let m = choose|m: int|
                0 <= m < k - 1 && #[trigger] curves_in(contours, m) <= i < curves_in(
                    contours,
                    m + 1,
                );
            assert(0 <= m < k);
        } else {
            assert(curves_in(contours, k - 1) <= i < curves_in(contours, k - 1 + 1));
        }
    }
}

/// One master's records with shared end points: a contour of n curves becomes n + 1
/// texels. Returns the lanes and each curve's texel offset within the region.
///
/// The next curve's texel already holds this curve's third control point in its first two
/// lanes, which is what makes a fetch of two texels land on the right point.
pub fn shared_records(curves: &Vec<Curve>, contours: &Vec<u32>) -> (packed: (Vec<u16>, Vec<u32>))
    requires
        contours_fit(contours@, curves@.len() as int),
        4 * (curves@.len() + contours@.len()) + 4 <= u32::MAX,
    ensures
        packed.0@ == shared_lanes(curves@, contours@),
        packed.1@.len() == curves@.len(),
        forall|i: int|
            0 <= i < curves@.len() ==> (#[trigger] packed.1@[i]) == texel_at(contours@, i),
{
    let mut lanes: Vec<u16> = Vec::new();
    let mut texel_of: Vec<u32> = Vec::new();
    let mut curve: usize = 0;
    let mut k: usize = 0;
    assert(lanes@ =~= contour_lanes(curves@, contours@, 0));
    while k < contours.len()
        invariant
            k <= contours@.len(),
            contours_fit(contours@, curves@.len() as int),
            4 * (curves@.len() + contours@.len()) + 4 <= u32::MAX,
            curve == curves_in(contours@, k as int),
            lanes@ == contour_lanes(curves@, contours@, k as int),
            texel_of@.len() == curve,
            forall|i: int| 0 <= i < curve ==> (#[trigger] texel_of@[i]) == texel_at(contours@, i),
        decreases contours@.len() - k,
    {
        let n: usize = contours[k] as usize;
        proof {
            lemma_curves_in(contours@, k + 1, contours@.len() as int);
            lemma_contour_lanes_len(curves@, contours@, k as int);
        }
        let ghost lead = lanes@;
        let mut j: usize = 0;
        assert(lanes@ =~= lead + curve_lanes(curves@, curve as int, 0));
        while j < n
            invariant
                j <= n,
                n == contours@[k as int],
                k < contours@.len(),
                curve == curves_in(contours@, k as int),
                curve + n == curves_in(contours@, k + 1) <= curves@.len(),
                4 * (curves@.len() + contours@.len()) + 4 <= u32::MAX,
                lead.len() == 4 * (curve + k),
                lanes@.len() == 4 * (curve + k + j),
                lanes@ == lead + curve_lanes(curves@, curve as int, j as int),
                texel_of@.len() == curve + j,
                forall|i: int|
                    0 <= i < curve + j ==> (#[trigger] texel_of@[i]) == texel_at(contours@, i),
            decreases n - j,
        {
            let c: Curve = curves[curve + j];
            proof {
                lemma_contour_from(contours@, curve + j, 0, k as int);
            }
            texel_of.push((lanes.len() / FLOATS_PER_TEXEL) as u32);
            let ghost before = lanes@;
            lanes.push(c.x0);
            lanes.push(c.y0);
            lanes.push(c.x1);
            lanes.push(c.y1);
            j = j + 1;
            proof {
                assert(lanes@ =~= before + curve_texel(c));
                assert(lanes@ =~= lead + curve_lanes(curves@, curve as int, j as int));
            }
        }
        // The contour's last third point, which sharing has nowhere else to put.
        let last: Curve = curves[curve + n - 1];
        let ghost before = lanes@;
        lanes.push(last.x2);
        lanes.push(last.y2);
        lanes.push(0);
        lanes.push(0);
        assert(lanes@ =~= before + end_texel(last));
        curve = curve + n;
        k = k + 1;
    }
    proof {
        lemma_contour_lanes_len(curves@, contours@, contours@.len() as int);
    }
    let ghost before = lanes@;
    let want: usize = shared_texels(curves.len(), contours.len()) as usize * FLOATS_PER_TEXEL;
    lanes.resize(want, 0);
    assert(lanes@ =~= shared_lanes(curves@, contours@));
    (lanes, texel_of)
}

/// The records of a flat block: three control points and padding per curve.
pub open spec fn flat_lanes(curves: Seq<Curve>, n: int) -> Seq<u16>
    decreases n,
{
    if n <= 0 {
        Seq::empty()
    } else {
        flat_lanes(curves, n - 1) + seq![
            curves[n - 1].x0,
            curves[n - 1].y0,
            curves[n - 1].x1,
            curves[n - 1].y1,
            curves[n - 1].x2,
            curves[n - 1].y2,
            0,
            0,
        ]
    }
}

/// A flat block: one master's records, then the other's.
pub open spec fn flat_lanes_of(a: Seq<Curve>, b: Option<Seq<Curve>>) -> Seq<u16> {
    flat_lanes(a, a.len() as int) + (match b {
        Some(b) => flat_lanes(b, b.len() as int),
        None => Seq::empty(),
    })
}

proof fn lemma_flat_lanes_len(curves: Seq<Curve>, n: int)
    requires
        0 <= n,
    ensures
        flat_lanes(curves, n).len() == 8 * n,
    decreases n,
{
    if n > 0 {
        lemma_flat_lanes_len(curves, n - 1);
    }
}

fn push_flat(curves: &Vec<Curve>, block: &mut Vec<u16>)
    ensures
        final(block)@ == old(block)@ + flat_lanes(curves@, curves@.len() as int),
{
    let mut i: usize = 0;
    assert(block@ =~= old(block)@ + flat_lanes(curves@, 0));
    while i < curves.len()
        invariant
            i <= curves@.len(),
            block@ == old(block)@ + flat_lanes(curves@, i as int),
        decreases curves@.len() - i,
    {
        let c: Curve = curves[i];
        block.push(c.x0);
        block.push(c.y0);
        block.push(c.x1);
        block.push(c.y1);
        block.push(c.x2);
        block.push(c.y2);
        block.push(0);
        block.push(0);
        i = i + 1;
        assert(block@ =~= old(block)@ + flat_lanes(curves@, i as int));
    }
}

/// Master A's records followed by master B's, unshared: two texels a curve, which is what
/// addressing by arithmetic alone wants.
pub fn flat_block(a: &Vec<Curve>, b: Option<&Vec<Curve>>) -> (block: Vec<u16>)
    ensures
        block@ == flat_lanes_of(a@, master_view(b)),
        block@.len() == 8 * (a@.len() + (match master_view(b) {
            Some(b) => b.len(),
            None => 0,
        })),
{
    let mut block: Vec<u16> = Vec::new();
    push_flat(a, &mut block);
    assert(block@ =~= flat_lanes(a@, a@.len() as int));
    if let Some(b) = b {
        push_flat(b, &mut block);
    }
    proof {
        lemma_flat_lanes_len(a@, a@.len() as int);
        if let Some(b) = b {
            lemma_flat_lanes_len(b@, b@.len() as int);
        }
        assert(block@ =~= flat_lanes_of(a@, master_view(b)));
    }
    block
}

/// Texels a list of `n` entries takes.
pub open spec fn list_texels(n: int) -> int {
    (n + 3) / 4
}

/// Texels of the lists of the first `k` bands, two lists a band.
pub open spec fn lists_texels(table: Seq<BandState>, k: int) -> int
    decreases k,
{
    if k <= 0 {
        0
    } else {
        lists_texels(table, k - 1) + 2 * list_texels(table[k - 1].descending.len() as int)
    }
}

/// Where the curve texels of a banded block start.
pub open spec fn records_at(table: Seq<BandState>) -> int {
    HEADER_TEXELS + lists_texels(table, table.len() as int)
}

/// A lane that holds an integer.
pub open spec fn int_lane(n: int) -> u16 {
    halves::half_int(n) as u16
}

/// A band's header entry: the offset of its descending list, its curve count, its split,
/// and the offset of its ascending list.
pub open spec fn header_entry(table: Seq<BandState>, k: int) -> Seq<u16> {
    let at = HEADER_TEXELS + lists_texels(table, k);
    let n = table[k].descending.len() as int;
    seq![int_lane(at), int_lane(n), table[k].split, int_lane(at + list_texels(n))]
}

/// The header entries of the first `k` bands.
pub open spec fn headers(table: Seq<BandState>, k: int) -> Seq<u16>
    decreases k,
{
    if k <= 0 {
        Seq::empty()
    } else {
        headers(table, k - 1) + header_entry(table, k - 1)
    }
}

/// A list of curves, as the offsets of their texels, padded to whole texels.
pub open spec fn list_lanes(list: Seq<u32>, contours: Seq<u32>, records: int) -> Seq<u16> {
    Seq::new(list.len(), |i: int| int_lane(records + texel_at(contours, list[i] as int))) + zeros(
        4 * list_texels(list.len() as int) - list.len(),
    )
}

/// The lists of the first `k` bands, the descending one first.
pub open spec fn lists_lanes(table: Seq<BandState>, contours: Seq<u32>, records: int, k: int) -> Seq<
    u16,
>
    decreases k,
{
    if k <= 0 {
        Seq::empty()
    } else {
        lists_lanes(table, contours, records, k - 1) + list_lanes(
            table[k - 1].descending,
            contours,
            records,
        ) + list_lanes(table[k - 1].ascending, contours, records)
    }
}

/// A banded block: header, lists, then master A's curve texels and master B's.
pub open spec fn banded_lanes(
    a: Seq<Curve>,
    b: Option<Seq<Curve>>,
    contours: Seq<u32>,
    table: Seq<BandState>,
) -> Seq<u16> {
    let n = table.len() as int;
    headers(table, n) + lists_lanes(table, contours, records_at(table), n) + shared_lanes(
        a,
        contours,
    ) + (match b {
        Some(b) => shared_lanes(b, contours),
        None => Seq::empty(),
    })
}

/// Every integer a banded block would hold is one that a half holds exactly.
pub open spec fn fits_halves(curves: int, contours: int, table: Seq<BandState>) -> bool {
    records_at(table) + even_up(curves + contours) <= F16_EXACT_INT
}

/// The lists of the first bands take an even number of texels, bounded by the curves.
pub proof fn lemma_lists_texels(table: Seq<BandState>, count: int, k: int)
    requires
        table_fits(table, count),
        0 <= k <= table.len(),
        0 <= count,
    ensures
        0 <= lists_texels(table, k) <= k * (count + 3),
        lists_texels(table, k) % 2 == 0,
    decreases k,
{
    if k > 0 {
        lemma_lists_texels(table, count, k - 1);
        let n = table[k - 1].descending.len() as int;
        assert(n <= count);
        assert(k * (count + 3) == (k - 1) * (count + 3) + (count + 3)) by (nonlinear_arith);
        assert(2 * list_texels(n) <= count + 3);
    } else {
        assert(0 * (count + 3) == 0) by (nonlinear_arith);
    }
}

proof fn lemma_lists_texels_grow(table: Seq<BandState>, count: int, k: int, m: int)
    requires
        table_fits(table, count),
        0 <= k <= m <= table.len(),
    ensures
        lists_texels(table, k) <= lists_texels(table, m),
    decreases m,
{
    if k < m {
        lemma_lists_texels_grow(table, count, k, m - 1);
    }
}

proof fn lemma_headers_len(table: Seq<BandState>, k: int)
    requires
        0 <= k,
    ensures
        headers(table, k).len() == 4 * k,
    decreases k,
{
    if k > 0 {
        lemma_headers_len(table, k - 1);
    }
}

proof fn lemma_lists_lanes_len(table: Seq<BandState>, contours: Seq<u32>, records: int, count: int, k: int)
    requires
        table_fits(table, count),
        0 <= k <= table.len(),
    ensures
        lists_lanes(table, contours, records, k).len() == 4 * lists_texels(table, k),
    decreases k,
{
    if k > 0 {
        lemma_lists_lanes_len(table, contours, records, count, k - 1);
        assert(table[k - 1].descending.len() == table[k - 1].ascending.len());
    }
}

proof fn lemma_shared_lanes_len(curves: Seq<Curve>, contours: Seq<u32>)
    requires
        contours_fit(contours, curves.len() as int),
    ensures
        shared_lanes(curves, contours).len() == 4 * even_up(
            (curves.len() + contours.len()) as int,
        ),
{
    lemma_contour_lanes_len(curves, contours, contours.len() as int);
}

proof fn lemma_texel_at(contours: Seq<u32>, count: int, i: int)
    requires
        contours_fit(contours, count),
        0 <= i < count,
    ensures
        0 <= texel_at(contours, i) < count + contours.len(),
{
    lemma_find_contour(contours, i, contours.len() as int);
    let m = choose|m: int|
        0 <= m < contours.len() && #[trigger] curves_in(contours, m) <= i < curves_in(
            contours,
            m + 1,
        );
    lemma_contour_from(contours, i, 0, m);
}

/// Appends a list of curves, as the offsets of their texels, padded to whole texels.
#[verifier::spinoff_prover]
#[verifier::rlimit(40)]
fn push_list(list: &Vec<u32>, texel_of: &Vec<u32>, contours: Ghost<Seq<u32>>, records: usize, block: &mut Vec<u16>)
    requires
        forall|i: int| 0 <= i < list@.len() ==> #[trigger] list@[i] < texel_of@.len(),
        forall|i: int|
            0 <= i < texel_of@.len() ==> (#[trigger] texel_of@[i]) == texel_at(contours@, i)
                && records + texel_of@[i] <= F16_EXACT_INT,
        old(block)@.len() % 4 == 0,
    ensures
        final(block)@ == old(block)@ + list_lanes(list@, contours@, records as int),
        final(block)@.len() % 4 == 0,
{
    let ghost want = list_lanes(list@, contours@, records as int);
    let mut i: usize = 0;
    assert(block@ =~= old(block)@ + want.take(0));
    while i < list.len()
        invariant
            i <= list@.len(),
            want == list_lanes(list@, contours@, records as int),
            forall|i: int| 0 <= i < list@.len() ==> #[trigger] list@[i] < texel_of@.len(),
            forall|i: int|
                0 <= i < texel_of@.len() ==> (#[trigger] texel_of@[i]) == texel_at(contours@, i)
                    && records + texel_of@[i] <= F16_EXACT_INT,
            block@ == old(block)@ + want.take(i as int),
            block@.len() == old(block)@.len() + i,
        decreases list@.len() - i,
    {
        let at: u32 = texel_of[list[i] as usize];
        let lane: u16 = half_of((records + at as usize) as u16);
        block.push(lane);
        assert(want[i as int] == lane);
        i = i + 1;
        assert(want.take(i as int) =~= want.take(i - 1).push(lane));
        assert(block@ =~= old(block)@ + want.take(i as int));
    }
    let ghost mut m = i as int;
    while block.len() % FLOATS_PER_TEXEL != 0
        invariant
            list@.len() <= m <= want.len(),
            want == list_lanes(list@, contours@, records as int),
            block@ == old(block)@ + want.take(m),
            block@.len() == old(block)@.len() + m,
            old(block)@.len() % 4 == 0,
        decreases want.len() - m,
    {
        block.push(0);
        proof {
            m = m + 1;
            assert(want.take(m) =~= want.take(m - 1).push(0));
            assert(block@ =~= old(block)@ + want.take(m));
        }
    }
    assert(want.take(m) =~= want);
}

/// Lays out a banded block: header, index lists, then master A's curve texels and master
/// B's parallel copy.
///
/// Nothing comes back where the block would hold a texel offset past [`F16_EXACT_INT`],
/// where a half stops holding integers exactly; the caller falls back to the flat layout,
/// which stores no integers at all.
#[verifier::rlimit(40)]
#[verifier::spinoff_prover]
pub fn banded_block(
    a: &Vec<Curve>,
    b: Option<&Vec<Curve>>,
    contours: &Vec<u32>,
    table: &Vec<Band>,
) -> (block: Option<Vec<u16>>)
    requires
        a@.len() <= u32::MAX,
        contours_fit(contours@, a@.len() as int),
        b matches Some(b) ==> b@.len() == a@.len(),
        table@.len() == 2 * BANDS,
        table_fits(band_states(table@), a@.len() as int),
    ensures
        block is Some <==> fits_halves(
            a@.len() as int,
            contours@.len() as int,
            band_states(table@),
        ),
        block matches Some(lanes) ==> {
            &&& lanes@ == banded_lanes(a@, master_view(b), contours@, band_states(table@))
            &&& lanes@.len() == 4 * (records_at(band_states(table@)) + (if b is Some {
                2int
            } else {
                1int
            }) * even_up((a@.len() + contours@.len()) as int))
            &&& lanes@.len() % 8 == 0
        },
{
    let ghost states = band_states(table@);
    let ghost count = a@.len() as int;
    proof {
        lemma_contours_counted(contours@, contours@.len() as int);
    }
    // Two lists per band, same members, opposite orders, each starting on a texel
    // boundary.
    let mut lists: u64 = 0;
    let mut k: usize = 0;
    while k < table.len()
        invariant
            k <= table@.len() == 16,
            states == band_states(table@),
            count == a@.len() <= u32::MAX,
            table_fits(states, count),
            lists == lists_texels(states, k as int),
            lists <= k * (count + 3),
        decreases table@.len() - k,
    {
        proof {
            lemma_lists_texels(states, count, k + 1);
            assert(states[k as int].descending.len() <= count);
            assert((k + 1) * (count + 3) <= 16 * (count + 3)) by (nonlinear_arith)
                requires
                    k + 1 <= 16,
                    0 <= count,
            ;
        }
        let n: u64 = table[k].descending.len() as u64;
        lists = lists + 2 * ((n + 3) / 4);
        k = k + 1;
    }
    proof {
        lemma_lists_texels(states, count, 16);
    }
    let texels: u64 = a.len() as u64 + contours.len() as u64;
    let records: u64 = HEADER_TEXELS as u64 + lists;
    // The offset of the last curve texel is the largest integer any lane of this block
    // would hold; header offsets, member counts and the other list entries are smaller.
    if records + texels + texels % 2 > F16_EXACT_INT as u64 {
        return None;
    }
    let records: usize = records as usize;
    let (a_lanes, texel_of) = shared_records(a, contours);
    let mut block: Vec<u16> = Vec::new();
    let mut offset: usize = HEADER_TEXELS;
    let mut k: usize = 0;
    assert(block@ =~= headers(states, 0));
    while k < table.len()
        invariant
            k <= table@.len() == 16,
            states == band_states(table@),
            count == a@.len() <= 2048,
            table_fits(states, count),
            records == records_at(states) <= 2048,
            offset == HEADER_TEXELS + lists_texels(states, k as int),
            block@ == headers(states, k as int),
        decreases table@.len() - k,
    {
        proof {
            lemma_lists_texels_grow(states, count, k + 1, 16);
            assert(states[k as int].descending.len() <= count);
        }
        let n: usize = table[k].descending.len();
        let own: usize = (n + 3) / 4;
        let ghost before = block@;
        block.push(half_of(offset as u16));
        block.push(half_of(n as u16));
        block.push(table[k].split);
        block.push(half_of((offset + own) as u16));
        assert(block@ =~= before + header_entry(states, k as int));
        offset = offset + 2 * own;
        k = k + 1;
    }
    proof {
        lemma_headers_len(states, 16);
        lemma_shared_lanes_len(a@, contours@);
        assert forall|i: int| 0 <= i < texel_of@.len() implies (#[trigger] texel_of@[i])
            == texel_at(contours@, i) && records + texel_of@[i] <= F16_EXACT_INT by {
            lemma_texel_at(contours@, count, i);
        }
    }
    let ghost lead = block@;
    let mut k: usize = 0;
    assert(block@ =~= lead + lists_lanes(states, contours@, records as int, 0));
    while k < table.len()
        invariant
            k <= table@.len() == 16,
            states == band_states(table@),
            count == a@.len() == texel_of@.len(),
            table_fits(states, count),
            lead.len() == 64,
            block@ == lead + lists_lanes(states, contours@, records as int, k as int),
            block@.len() % 4 == 0,
            forall|i: int|
                0 <= i < texel_of@.len() ==> (#[trigger] texel_of@[i]) == texel_at(contours@, i)
                    && records + texel_of@[i] <= F16_EXACT_INT,
        decreases table@.len() - k,
    {
        assert(states[k as int] == table@[k as int]@);
        push_list(&table[k].descending, &texel_of, Ghost(contours@), records, &mut block);
        push_list(&table[k].ascending, &texel_of, Ghost(contours@), records, &mut block);
        k = k + 1;
        assert(block@ =~= lead + lists_lanes(states, contours@, records as int, k as int));
    }
    block.extend_from_slice(a_lanes.as_slice());
    assert(block@ =~= lead + lists_lanes(states, contours@, records as int, 16) + shared_lanes(
        a@,
        contours@,
    ));
    proof {
        lemma_lists_lanes_len(states, contours@, records as int, count, 16);
    }
    if let Some(b) = b {
        // Same commands, so the same contours: master B packs to the same texels, which is
        // what keeps the distance between the masters a single constant.
        let (b_lanes, b_texel_of) = shared_records(b, contours);
        let ghost before = block@;
        block.extend_from_slice(b_lanes.as_slice());
        assert(block@ =~= before + shared_lanes(b@, contours@));
        proof {
            lemma_shared_lanes_len(b@, contours@);
        }
    }
    assert(block@ =~= banded_lanes(a@, master_view(b), contours@, states));
    Some(block)
}

proof fn lemma_headers_at(table: Seq<BandState>, n: int, k: int)
    requires
        0 <= k < n,
    ensures
        headers(table, n).len() == 4 * n,
        headers(table, n).subrange(4 * k, 4 * k + 4) == header_entry(table, k),
    decreases n,
{
    lemma_headers_len(table, n - 1);
    let init = headers(table, n - 1);
    let all = headers(table, n);
    if k < n - 1 {
        lemma_headers_at(table, n - 1, k);
        assert(all.subrange(4 * k, 4 * k + 4) =~= init.subrange(4 * k, 4 * k + 4));
    } else {
        assert(all.subrange(4 * k, 4 * k + 4) =~= header_entry(table, k));
    }
}

proof fn lemma_lists_at(
    table: Seq<BandState>,
    contours: Seq<u32>,
    records: int,
    count: int,
    n: int,
    k: int,
    i: int,
)
    requires
        table_fits(table, count),
        0 <= k < n <= table.len(),
        0 <= i < table[k].descending.len(),
    ensures
        ({
            let lanes = lists_lanes(table, contours, records, n);
            let at = 4 * lists_texels(table, k) + i;
            let own = 4 * list_texels(table[k].descending.len() as int);
            &&& 0 <= at
            &&& at + own < lanes.len()
            &&& lanes[at] == int_lane(records + texel_at(contours, table[k].descending[i] as int))
            &&& lanes[at + own] == int_lane(
                records + texel_at(contours, table[k].ascending[i] as int),
            )
        }),
    decreases n,
{
    lemma_lists_lanes_len(table, contours, records, count, n - 1);
    lemma_lists_lanes_len(table, contours, records, count, n);
    lemma_lists_texels_grow(table, count, 0, k);
    assert(table[k].descending.len() == table[k].ascending.len());
    assert(table[n - 1].descending.len() == table[n - 1].ascending.len());
    if k < n - 1 {
        lemma_lists_at(table, contours, records, count, n - 1, k, i);
    }
}

/// A band's header entry and its lists are read back from a banded block: the entry holds
/// where the two lists are and how long they are, and each list entry holds the offset of
/// its curve's texel. Every integer among them is one that a half holds exactly.
pub proof fn lemma_band_readback(
    a: Seq<Curve>,
    b: Option<Seq<Curve>>,
    contours: Seq<u32>,
    table: Seq<BandState>,
    k: int,
    i: int,
)
    requires
        contours_fit(contours, a.len() as int),
        table.len() == 2 * BANDS,
        table_fits(table, a.len() as int),
        fits_halves(a.len() as int, contours.len() as int, table),
        0 <= k < table.len(),
        0 <= i < table[k].descending.len(),
    ensures
        ({
            let block = banded_lanes(a, b, contours, table);
            let records = records_at(table);
            let down = HEADER_TEXELS + lists_texels(table, k);
            let up = down + list_texels(table[k].descending.len() as int);
            let first = records + texel_at(contours, table[k].descending[i] as int);
            let second = records + texel_at(contours, table[k].ascending[i] as int);
            &&& 0 <= 4 * down + i < 4 * up + i < block.len()
            &&& block.subrange(4 * k, 4 * k + 4) == seq![
                int_lane(down),
                int_lane(table[k].descending.len() as int),
                table[k].split,
                int_lane(up),
            ]
            &&& block[4 * down + i] == int_lane(first)
            &&& block[4 * up + i] == int_lane(second)
            &&& 0 <= down <= up <= records
            &&& table[k].descending.len() <= F16_EXACT_INT
            &&& records <= first < F16_EXACT_INT
            &&& records <= second < F16_EXACT_INT
        }),
{
    let count = a.len() as int;
    let block = banded_lanes(a, b, contours, table);
    let records = records_at(table);
    lemma_headers_at(table, 16, k);
    lemma_lists_at(table, contours, records, count, 16, k, i);
    lemma_lists_lanes_len(table, contours, records, count, 16);
    lemma_lists_texels_grow(table, count, 0, k);
    lemma_lists_texels_grow(table, count, k + 1, 16);
    lemma_contours_counted(contours, contours.len() as int);
    assert(table[k].descending.len() == table[k].ascending.len() <= count);
    assert(table[k].descending[i] < count);
    assert(table[k].ascending[i] < count);
    lemma_texel_at(contours, count, table[k].descending[i] as int);
    lemma_texel_at(contours, count, table[k].ascending[i] as int);
    assert(block.subrange(4 * k, 4 * k + 4) =~= headers(table, 16).subrange(4 * k, 4 * k + 4));
}

/// A curve of either master is read back from a banded block at the offset that the lists
/// hold for it, the second master's a fixed distance after the first's.
pub proof fn lemma_block_readback(
    a: Seq<Curve>,
    b: Option<Seq<Curve>>,
    contours: Seq<u32>,
    table: Seq<BandState>,
    i: int,
)
    requires
        contours_fit(contours, a.len() as int),
        contours_chain(a, contours),
        b matches Some(b) ==> b.len() == a.len() && contours_chain(b, contours),
        table.len() == 2 * BANDS,
        table_fits(table, a.len() as int),
        0 <= i < a.len(),
    ensures
        ({
            let block = banded_lanes(a, b, contours, table);
            let at = 4 * (records_at(table) + texel_at(contours, i));
            let other = at + 4 * even_up((a.len() + contours.len()) as int);
            &&& block.subrange(at, at + 4) == curve_texel(a[i])
            &&& block[at + 4] == a[i].x2
            &&& block[at + 5] == a[i].y2
            &&& b matches Some(b) ==> {
                &&& block.subrange(other, other + 4) == curve_texel(b[i])
                &&& block[other + 4] == b[i].x2
                &&& block[other + 5] == b[i].y2
            }
        }),
{
    let count = a.len() as int;
    let records = records_at(table);
    let block = banded_lanes(a, b, contours, table);
    let t = texel_at(contours, i);
    let lead = headers(table, 16) + lists_lanes(table, contours, records, 16);
    lemma_headers_len(table, 16);
    lemma_lists_lanes_len(table, contours, records, count, 16);
    lemma_lists_texels_grow(table, count, 0, 16);
    lemma_curve_readback(a, contours, i);
    lemma_shared_lanes_len(a, contours);
    let own = shared_lanes(a, contours);
    assert(lead.len() == 4 * records);
    assert(block.subrange(4 * (records + t), 4 * (records + t) + 4) =~= own.subrange(
        4 * t,
        4 * t + 4,
    ));
    if let Some(b) = b {
        lemma_curve_readback(b, contours, i);
        lemma_shared_lanes_len(b, contours);
        let twin = shared_lanes(b, contours);
        let other = 4 * (records + t) + 4 * even_up(count + contours.len());
        assert(block.subrange(other, other + 4) =~= twin.subrange(4 * t, 4 * t + 4));
    }
}

/// The length of a flat block, in halves.
pub proof fn lemma_flat_len(a: Seq<Curve>, b: Option<Seq<Curve>>)
    ensures
        flat_lanes_of(a, b).len() == 8 * (a.len() + (match b {
            Some(b) => b.len(),
            None => 0,
        })),
{
    lemma_flat_lanes_len(a, a.len() as int);
    if let Some(b) = b {
        lemma_flat_lanes_len(b, b.len() as int);
    }
}

/// The length of a banded block, in halves.
pub proof fn lemma_banded_len(
    a: Seq<Curve>,
    b: Option<Seq<Curve>>,
    contours: Seq<u32>,
    table: Seq<BandState>,
)
    requires
        contours_fit(contours, a.len() as int),
        b matches Some(b) ==> b.len() == a.len(),
        table.len() == 2 * BANDS,
        table_fits(table, a.len() as int),
    ensures
        banded_lanes(a, b, contours, table).len() == 4 * (records_at(table) + (if b is Some {
            2int
        } else {
            1int
        }) * even_up((a.len() + contours.len()) as int)),
        records_at(table) >= 0,
        records_at(table) % 2 == 0,
{
    lemma_headers_len(table, 16);
    lemma_lists_lanes_len(table, contours, records_at(table), a.len() as int, 16);
    lemma_lists_texels(table, a.len() as int, 16);
    lemma_shared_lanes_len(a, contours);
    if let Some(b) = b {
        lemma_shared_lanes_len(b, contours);
    }
}

/// A curve of either master is read back from a flat block: its six coordinates stand in
/// order at eight times its number, the second master's behind all of the first's.
#[verifier::spinoff_prover]
pub proof fn lemma_flat_readback(a: Seq<Curve>, b: Option<Seq<Curve>>, i: int)
    requires
        0 <= i < a.len(),
        b matches Some(b) ==> b.len() == a.len(),
    ensures
        ({
            let block = flat_lanes_of(a, b);
            let at = 8 * i;
            let other = 8 * (a.len() + i);
            &&& block[at] == a[i].x0 && block[at + 1] == a[i].y0
            &&& block[at + 2] == a[i].x1 && block[at + 3] == a[i].y1
            &&& block[at + 4] == a[i].x2 && block[at + 5] == a[i].y2
            &&& block[at + 6] == 0 && block[at + 7] == 0
            &&& b matches Some(b) ==> {
                &&& block[other] == b[i].x0 && block[other + 1] == b[i].y0
                &&& block[other + 2] == b[i].x1 && block[other + 3] == b[i].y1
                &&& block[other + 4] == b[i].x2 && block[other + 5] == b[i].y2
                &&& block[other + 6] == 0 && block[other + 7] == 0
            }
        }),
{
    let n = a.len() as int;
    lemma_flat_lanes_len(a, n);
    lemma_flat_at(a, n, i);
    if let Some(b) = b {
        lemma_flat_lanes_len(b, n);
        lemma_flat_at(b, n, i);
        let block = flat_lanes_of(a, Some(b));
        let tail = flat_lanes(b, n);
        assert(forall|k: int| 0 <= k < tail.len() ==> block[8 * n + k] == #[trigger] tail[k]);
        assert(block[8 * n + 8 * i] == tail[8 * i]);
        assert(block[8 * n + (8 * i + 1)] == tail[8 * i + 1]);
        assert(block[8 * n + (8 * i + 2)] == tail[8 * i + 2]);
        assert(block[8 * n + (8 * i + 3)] == tail[8 * i + 3]);
        assert(block[8 * n + (8 * i + 4)] == tail[8 * i + 4]);
        assert(block[8 * n + (8 * i + 5)] == tail[8 * i + 5]);
        assert(block[8 * n + (8 * i + 6)] == tail[8 * i + 6]);
        assert(block[8 * n + (8 * i + 7)] == tail[8 * i + 7]);
    }
}

#[verifier::spinoff_prover]
proof fn lemma_flat_at(curves: Seq<Curve>, n: int, i: int)
    requires
        0 <= i < n,
    ensures
        ({
            let lanes = flat_lanes(curves, n);
            let at = 8 * i;
            &&& lanes[at] == curves[i].x0 && lanes[at + 1] == curves[i].y0
            &&& lanes[at + 2] == curves[i].x1 && lanes[at + 3] == curves[i].y1
            &&& lanes[at + 4] == curves[i].x2 && lanes[at + 5] == curves[i].y2
            &&& lanes[at + 6] == 0 && lanes[at + 7] == 0
        }),
    decreases n,
{
    lemma_flat_lanes_len(curves, n - 1);
    if i < n - 1 {
        lemma_flat_at(curves, n - 1, i);
    }
}

/// A curve of either master is read back from a banded block, coordinate by coordinate, at
/// the offset that the lists hold for it.
#[verifier::spinoff_prover]
pub proof fn lemma_banded_points(
    a: Seq<Curve>,
    b: Option<Seq<Curve>>,
    contours: Seq<u32>,
    table: Seq<BandState>,
    i: int,
)
    requires
        contours_fit(contours, a.len() as int),
        contours_chain(a, contours),
        b matches Some(b) ==> b.len() == a.len() && contours_chain(b, contours),
        table.len() == 2 * BANDS,
        table_fits(table, a.len() as int),
        0 <= i < a.len(),
    ensures
        ({
            let block = banded_lanes(a, b, contours, table);
            let at = 4 * (records_at(table) + texel_at(contours, i));
            let other = at + 4 * even_up((a.len() + contours.len()) as int);
            &&& block[at] == a[i].x0 && block[at + 1] == a[i].y0
            &&& block[at + 2] == a[i].x1 && block[at + 3] == a[i].y1
            &&& block[at + 4] == a[i].x2 && block[at + 5] == a[i].y2
            &&& b matches Some(b) ==> {
                &&& block[other] == b[i].x0 && block[other + 1] == b[i].y0
                &&& block[other + 2] == b[i].x1 && block[other + 3] == b[i].y1
                &&& block[other + 4] == b[i].x2 && block[other + 5] == b[i].y2
            }
        }),
{
    lemma_block_readback(a, b, contours, table, i);
    let block = banded_lanes(a, b, contours, table);
    let at = 4 * (records_at(table) + texel_at(contours, i));
    let own = block.subrange(at, at + 4);
    lemma_banded_len(a, b, contours, table);
    lemma_curve_readback(a, contours, i);
    lemma_shared_lanes_len(a, contours);
    assert(own[0] == block[at] && own[1] == block[at + 1] && own[2] == block[at + 2] && own[3]
        == block[at + 3]);
    if let Some(b) = b {
        let other = at + 4 * even_up((a.len() + contours.len()) as int);
        let twin = block.subrange(other, other + 4);
        assert(twin[0] == block[other] && twin[1] == block[other + 1] && twin[2]
            == block[other + 2] && twin[3] == block[other + 3]);
    }
}

/// The numbers in a band's header entry and its lists are read back as they are meant: the
/// first number is the texel of the descending list, the second the curves on it, and the
/// last the texel of the ascending list, and an entry of a list is the texel that its curve
/// is read back from.
#[verifier::spinoff_prover]
pub proof fn lemma_band_numbers(
    a: Seq<Curve>,
    b: Option<Seq<Curve>>,
    contours: Seq<u32>,
    table: Seq<BandState>,
    k: int,
    i: int,
)
    requires
        contours_fit(contours, a.len() as int),
        contours_chain(a, contours),
        b matches Some(b) ==> b.len() == a.len(),
        table.len() == 2 * BANDS,
        table_fits(table, a.len() as int),
        fits_halves(a.len() as int, contours.len() as int, table),
        0 <= k < table.len(),
        0 <= i < table[k].descending.len(),
    ensures
        ({
            let block = banded_lanes(a, b, contours, table);
            let one = 0x100_0000;
            let read = |lane: int| halves::half_number(block[lane]) / one;
            let down = read(4 * k);
            let up = read(4 * k + 3);
            let first = read(4 * down + i);
            let second = read(4 * up + i);
            &&& read(4 * k + 1) == table[k].descending.len()
            &&& block[4 * k + 2] == table[k].split
            &&& block[4 * first] == a[table[k].descending[i] as int].x0
            &&& block[4 * first + 1] == a[table[k].descending[i] as int].y0
            &&& block[4 * first + 2] == a[table[k].descending[i] as int].x1
            &&& block[4 * first + 3] == a[table[k].descending[i] as int].y1
            &&& block[4 * first + 4] == a[table[k].descending[i] as int].x2
            &&& block[4 * first + 5] == a[table[k].descending[i] as int].y2
            &&& block[4 * second] == a[table[k].ascending[i] as int].x0
            &&& block[4 * second + 1] == a[table[k].ascending[i] as int].y0
            &&& block[4 * second + 2] == a[table[k].ascending[i] as int].x1
            &&& block[4 * second + 3] == a[table[k].ascending[i] as int].y1
            &&& block[4 * second + 4] == a[table[k].ascending[i] as int].x2
            &&& block[4 * second + 5] == a[table[k].ascending[i] as int].y2
        }),
{
    lemma_band_readback(a, b, contours, table, k, i);
    let block = banded_lanes(a, b, contours, table);
    let records = records_at(table);
    let down = HEADER_TEXELS + lists_texels(table, k);
    let n = table[k].descending.len() as int;
    let up = down + list_texels(n);
    let first = records + texel_at(contours, table[k].descending[i] as int);
    let second = records + texel_at(contours, table[k].ascending[i] as int);
    let entry = block.subrange(4 * k, 4 * k + 4);
    assert(4 * k + 4 <= block.len()) by {
        lemma_headers_len(table, table.len() as int);
    }
    assert(entry[0] == block[4 * k] && entry[1] == block[4 * k + 1] && entry[2] == block[4 * k + 2]
        && entry[3] == block[4 * k + 3]);
    assert(lists_texels(table, k) >= 0) by {
        lemma_lists_texels(table, a.len() as int, k);
    }
    lemma_lane_number(down);
    lemma_lane_number(up);
    lemma_lane_number(n);
    lemma_lane_number(first);
    lemma_lane_number(second);
    lemma_flat_master(a, b, contours, table, table[k].descending[i] as int);
    lemma_flat_master(a, b, contours, table, table[k].ascending[i] as int);
}

proof fn lemma_lane_number(n: int)
    requires
        0 <= n <= F16_EXACT_INT,
    ensures
        halves::half_number(int_lane(n)) / 0x100_0000 == n,
{
    halves::lemma_half_int_reads_back(n);
}

#[verifier::spinoff_prover]
proof fn lemma_flat_master(
    a: Seq<Curve>,
    b: Option<Seq<Curve>>,
    contours: Seq<u32>,
    table: Seq<BandState>,
    i: int,
)
    requires
        contours_fit(contours, a.len() as int),
        contours_chain(a, contours),
        b matches Some(b) ==> b.len() == a.len(),
        table.len() == 2 * BANDS,
        table_fits(table, a.len() as int),
        0 <= i < a.len(),
    ensures
        ({
            let block = banded_lanes(a, b, contours, table);
            let at = 4 * (records_at(table) + texel_at(contours, i));
            &&& block[at] == a[i].x0 && block[at + 1] == a[i].y0
            &&& block[at + 2] == a[i].x1 && block[at + 3] == a[i].y1
            &&& block[at + 4] == a[i].x2 && block[at + 5] == a[i].y2
        }),
{
    lemma_banded_points(a, None, contours, table, i);
    let alone = banded_lanes(a, None, contours, table);
    let block = banded_lanes(a, b, contours, table);
    lemma_banded_len(a, None, contours, table);
    lemma_curve_readback(a, contours, i);
    lemma_shared_lanes_len(a, contours);
    assert(alone.is_prefix_of(block)) by {
        assert(block.subrange(0, alone.len() as int) =~= alone);
    }
    let at = 4 * (records_at(table) + texel_at(contours, i));
    assert(at + 5 < alone.len());
    assert(forall|k: int| 0 <= k < alone.len() ==> block.subrange(0, alone.len() as int)[k]
        == #[trigger] alone[k]);
}

/// A glyph fits the tables exactly where the block of one master has no more texels than a
/// half counts exactly.
pub proof fn lemma_fits_halves(a: Seq<Curve>, contours: Seq<u32>, table: Seq<BandState>)
    requires
        contours_fit(contours, a.len() as int),
        table.len() == 2 * BANDS,
        table_fits(table, a.len() as int),
    ensures
        fits_halves(a.len() as int, contours.len() as int, table) <==> banded_lanes(
            a,
            None,
            contours,
            table,
        ).len() <= 4 * 2048,
{
    lemma_banded_len(a, None, contours, table);
}

/// A curve's span is no wider than it has to be: both its ends are coordinates of the
/// curve, in one master or the other.
pub proof fn lemma_span_is_tight(a: Seq<Curve>, b: Option<Seq<Curve>>, axis: Axis, i: int)
    ensures
        ({
            let (low, high) = span_at(a, b, axis, i);
            let (a0, a1, a2) = a[i].along(axis);
            let has = |v: u16|
                v == a0 || v == a1 || v == a2 || (b matches Some(b) && (v == b[i].along(axis).0
                    || v == b[i].along(axis).1 || v == b[i].along(axis).2));
            has(low) && has(high)
        }),
{
}

/// The coordinates of a curve along an axis are those of its three control points, in order.
pub proof fn lemma_along(curve: Curve)
    ensures
        curve.along(Axis::X) == (curve.x0, curve.x1, curve.x2),
        curve.along(Axis::Y) == (curve.y0, curve.y1, curve.y2),
{
}

proof fn lemma_range_is_tight(a: Seq<Curve>, b: Option<Seq<Curve>>, axis: Axis, n: int)
    requires
        1 <= n <= a.len(),
    ensures
        exists|i: int|
            0 <= i < n && (#[trigger] span_at(a, b, axis, i)).0 == range_of(a, b, axis, n).0,
        exists|i: int|
            0 <= i < n && (#[trigger] span_at(a, b, axis, i)).1 == range_of(a, b, axis, n).1,
    decreases n,
{
    if n > 1 {
        lemma_range_is_tight(a, b, axis, n - 1);
        let i = choose|i: int|
            0 <= i < n - 1 && (#[trigger] span_at(a, b, axis, i)).0 == range_of(
                a,
                b,
                axis,
                n - 1,
            ).0;
        let j = choose|j: int|
            0 <= j < n - 1 && (#[trigger] span_at(a, b, axis, j)).1 == range_of(
                a,
                b,
                axis,
                n - 1,
            ).1;
        let own = span_at(a, b, axis, n - 1);
        assert(span_at(a, b, axis, i).0 == range_of(a, b, axis, n).0 || own.0 == range_of(
            a,
            b,
            axis,
            n,
        ).0);
        assert(span_at(a, b, axis, j).1 == range_of(a, b, axis, n).1 || own.1 == range_of(
            a,
            b,
            axis,
            n,
        ).1);
    } else {
        assert(span_at(a, b, axis, 0) == range_of(a, b, axis, n));
    }
}

/// A glyph's rectangle holds all of its curves' spans, and touches one on each side: the
/// left and the right along x, the bottom and the top along y.
#[verifier::spinoff_prover]
pub proof fn lemma_bounds(a: Seq<Curve>, b: Option<Seq<Curve>>)
    requires
        a.len() > 0,
    ensures
        ({
            let box_ = bounds_of(a, b);
            let rank = |v: u16| halves::half_rank(v);
            &&& forall|i: int|
                0 <= i < a.len() ==> rank(box_.left) <= rank(
                    (#[trigger] span_at(a, b, Axis::X, i)).0,
                ) && rank(span_at(a, b, Axis::X, i).1) <= rank(box_.right)
            &&& forall|i: int|
                0 <= i < a.len() ==> rank(box_.bottom) <= rank(
                    (#[trigger] span_at(a, b, Axis::Y, i)).0,
                ) && rank(span_at(a, b, Axis::Y, i).1) <= rank(box_.top)
            &&& exists|i: int|
                0 <= i < a.len() && (#[trigger] span_at(a, b, Axis::X, i)).0 == box_.left
            &&& exists|i: int|
                0 <= i < a.len() && (#[trigger] span_at(a, b, Axis::X, i)).1 == box_.right
            &&& exists|i: int|
                0 <= i < a.len() && (#[trigger] span_at(a, b, Axis::Y, i)).0 == box_.bottom
            &&& exists|i: int|
                0 <= i < a.len() && (#[trigger] span_at(a, b, Axis::Y, i)).1 == box_.top
        }),
{
    let n = a.len() as int;
    lemma_range_is_tight(a, b, Axis::X, n);
    lemma_range_is_tight(a, b, Axis::Y, n);
    let box_ = bounds_of(a, b);
    let rank = |v: u16| halves::half_rank(v);
    assert forall|i: int| 0 <= i < a.len() implies rank(box_.left) <= rank(
        (#[trigger] span_at(a, b, Axis::X, i)).0,
    ) && rank(span_at(a, b, Axis::X, i).1) <= rank(box_.right) by {
        lemma_range_bounds(a, b, Axis::X, n, i);
    }
    assert forall|i: int| 0 <= i < a.len() implies rank(box_.bottom) <= rank(
        (#[trigger] span_at(a, b, Axis::Y, i)).0,
    ) && rank(span_at(a, b, Axis::Y, i).1) <= rank(box_.top) by {
        lemma_range_bounds(a, b, Axis::Y, n, i);
    }
}

/// The bands share an extent out evenly: the first starts where it starts, the last ends
/// where it ends, and all are as wide as each other.
pub proof fn lemma_bands_share_extent(extent: (u16, u16), band: int)
    requires
        halves::half_number(extent.0) < halves::half_number(extent.1),
    ensures
        band_edge(extent, 0) == 16 * halves::half_number(extent.0),
        band_edge(extent, 8) == 16 * halves::half_number(extent.1),
        band_edge(extent, band + 1) - band_edge(extent, band) == band_edge(extent, 1) - band_edge(
            extent,
            0,
        ),
        band_edge(extent, 0) < band_edge(extent, 1),
{
    let step = 2 * (halves::half_number(extent.1) - halves::half_number(extent.0));
    assert((band + 1) * step == band * step + step) by (nonlinear_arith);
}

/// A range is widened no further than it has to be: it starts and ends at its own ends or
/// at a band that the span is not off.
pub proof fn lemma_widened_is_tight(range: BandRange, span: (u16, u16), extent: (u16, u16), n: int)
    requires
        0 <= n <= BANDS,
    ensures
        ({
            let after = widened(range, span, extent, n);
            &&& after.first == range.first || after.first < n && !off_band(
                span,
                extent,
                after.first as int,
            )
            &&& after.last == range.last || after.last < n && !off_band(
                span,
                extent,
                after.last as int,
            )
        }),
    decreases n,
{
    if n > 0 {
        lemma_widened_is_tight(range, span, extent, n - 1);
    }
}

/// A band's split is the middle of one of its curves, and parts them: of the curves, in some
/// order, the first half have their middles no higher and the others no lower. A band
/// without curves splits at zero.
#[verifier::spinoff_prover]
pub proof fn lemma_median_parts(members: Seq<u32>, mids: Seq<u16>, split: u16)
    requires
        is_median(members, mids, split),
        forall|k: int| 0 <= k < members.len() ==> #[trigger] members[k] < mids.len(),
    ensures
        members.len() == 0 ==> split == 0,
        members.len() > 0 ==> exists|list: Seq<u32>|
            {
                &&& list.to_multiset() == members.to_multiset()
                &&& list.len() == members.len()
                &&& #[trigger] parts(list, mids, split, members.len() as int / 2)
            },
{
    if members.len() > 0 {
        let keys = middle_keys(mids);
        let list = choose|list: Seq<u32>| #[trigger]
            sorted_members(keys, members, list) && split == mids[list[members.len() as int / 2]
                as int];
        let half = members.len() as int / 2;
        members.to_multiset_ensures();
        list.to_multiset_ensures();
        assert forall|j: int| 0 <= j < list.len() implies #[trigger] list[j] < mids.len() by {
            vstd::seq_lib::to_multiset_contains(list, list[j]);
            vstd::seq_lib::to_multiset_contains(members, list[j]);
            assert(list.contains(list[j]));
            assert(members.contains(list[j]));
        }
        assert forall|j: int| 0 <= j < half implies halves::half_rank(
            mids[#[trigger] list[j] as int],
        ) <= halves::half_rank(split) by {
            assert(precedes(keys, list[j], list[half]));
        }
        assert forall|j: int| half <= j < list.len() implies halves::half_rank(
            mids[#[trigger] list[j] as int],
        ) >= halves::half_rank(split) by {
            if j > half {
                assert(precedes(keys, list[half], list[j]));
            }
        }
        assert(mids[list[half] as int] == split);
        assert(parts(list, mids, split, half));
    }
}

/// The first `half` curves of a list have their middles at a coordinate or below it, the
/// others at it or above, and one of them is there.
pub open spec fn parts(list: Seq<u32>, mids: Seq<u16>, split: u16, half: int) -> bool {
    &&& 0 <= half < list.len()
    &&& mids[list[half] as int] == split
    &&& forall|j: int|
        0 <= j < half ==> halves::half_rank(mids[#[trigger] list[j] as int]) <= halves::half_rank(
            split,
        )
    &&& forall|j: int|
        half <= j < list.len() ==> halves::half_rank(mids[#[trigger] list[j] as int])
            >= halves::half_rank(split)
}

/// A list takes the fewest whole texels that hold it, and a region the fewest texels that
/// hold it and are an even number.
pub proof fn lemma_no_texel_wasted(n: int)
    requires
        0 <= n,
    ensures
        4 * (list_texels(n) - 1) < n <= 4 * list_texels(n),
        even_up(n) % 2 == 0,
        n <= even_up(n) <= n + 1,
{
}

} // verus!
