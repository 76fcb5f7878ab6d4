//! Instance arenas: one growable vertex buffer per instance type, carved into
//! ranges owned by retained blocks.
//!
//! Allocation is a bump pointer plus a free list of released spans. Freed spans
//! are never coalesced with their neighbours; instead, once the free list holds
//! more than half of the arena, it is repacked: every live block is copied back
//! contiguously and the prefix is uploaded again in one write.
//!
//! The mirror is kept in words of four bytes, because every instance type is
//! made of 32-bit fields.

use vstd::prelude::*;
use vstd::set_lib::*;

verus! {

/// An arena is repacked once more than `REPACK_NUM / REPACK_DEN` of its
/// instances sit in the free list.
pub const REPACK_NUM: u32 = 1;

/// See [`REPACK_NUM`].
pub const REPACK_DEN: u32 = 2;

/// Extra room, as a fraction, reserved beyond the requested length so that small
/// edits reuse the allocation instead of churning the free list.
const SLACK_NUM: u32 = 1;

/// See [`SLACK_NUM`].
const SLACK_DEN: u32 = 4;

/// Capacities are multiples of this many instances.
const CAP_STEP: u32 = 8;

/// `len` plus a quarter of it, rounded up to the next multiple of eight.
pub open spec fn planned_cap(len: int) -> int {
    (len + len / 4 + 7) / 8 * 8
}

/// Capacity to reserve for `len` instances.
pub fn plan_cap(len: u32) -> (cap: u32)
    requires
        planned_cap(len as int) <= u32::MAX,
    ensures
        cap == planned_cap(len as int),
        cap % 8 == 0,
        len <= cap,
        len + len / 4 <= cap < len + len / 4 + 8,
{
    let wanted: u32 = len + len / SLACK_DEN * SLACK_NUM;
    let over: u32 = wanted % CAP_STEP;
    if over == 0 {
        wanted
    } else {
        wanted + (CAP_STEP - over)
    }
}

/// One block's slice of an arena: `cap` instances reserved starting at `start`,
/// of which the first `len` hold live content.
#[derive(Clone, Copy, Debug, PartialEq, Eq, Structural)]
pub struct Span {
    pub start: u32,
    pub cap: u32,
    pub len: u32,
}

impl Span {
    /// The span that owns nothing.
    pub open spec fn none() -> Span {
        Span { start: 0, cap: 0, len: 0 }
    }

    /// First instance past the reserved range.
    pub open spec fn end(self) -> int {
        self.start + self.cap
    }

    /// The two reserved ranges share no instance.
    pub open spec fn disjoint(self, other: Span) -> bool {
        self.cap == 0 || other.cap == 0 || self.end() <= other.start || other.end() <= self.start
    }

    /// Whether the span holds no live content.
    pub fn is_empty(&self) -> (empty: bool)
        ensures
            empty == (self.len == 0),
    {
        self.len == 0
    }
}

impl Default for Span {
    fn default() -> (span: Span)
        ensures
            span == Span::none(),
    {
        Span { start: 0, cap: 0, len: 0 }
    }
}

/// Total capacity of a list of spans.
pub open spec fn total_cap(spans: Seq<Span>) -> int
    decreases spans.len(),
{
    if spans.len() == 0 {
        0
    } else {
        total_cap(spans.drop_last()) + spans.last().cap
    }
}

/// No two spans of the list share an instance.
pub open spec fn all_disjoint(spans: Seq<Span>) -> bool {
    forall|i: int, j: int| 0 <= i < j < spans.len() ==> (#[trigger] spans[i]).disjoint(#[trigger] spans[j])
}

/// Index of the first hole at or after `from` with room for `cap` instances, or
/// the length of the list where there is none.
pub open spec fn first_fit(holes: Seq<Span>, cap: int, from: int) -> int
    decreases holes.len() - from,
{
    if from >= holes.len() {
        holes.len() as int
    } else if holes[from].cap >= cap {
        from
    } else {
        first_fit(holes, cap, from + 1)
    }
}

/// The list without its `i`-th element, whose place the last one takes.
pub open spec fn swap_removed(spans: Seq<Span>, i: int) -> Seq<Span> {
    spans.update(i, spans.last()).drop_last()
}

/// What an arena holds: `words` mirrors the buffer, `holes` is the free list.
pub ghost struct ArenaState {
    pub stride: int,
    pub words: Seq<u32>,
    pub capacity: int,
    pub top: int,
    pub holes: Seq<Span>,
    pub full: bool,
}

impl ArenaState {
    /// The words are those of the `top` instances handed out, and the holes are
    /// nonempty, disjoint ranges of them.
    pub open spec fn valid(self) -> bool {
        &&& 0 <= self.stride <= u32::MAX
        &&& 0 <= self.top <= u32::MAX
        &&& 0 <= self.capacity <= u32::MAX
        &&& self.words.len() == self.top * self.stride
        &&& self.top * self.stride <= u32::MAX
        &&& all_disjoint(self.holes)
        &&& forall|i: int|
            0 <= i < self.holes.len() ==> {
                let hole = #[trigger] self.holes[i];
                0 < hole.cap && hole.len == 0 && hole.end() <= self.top
            }
    }

    /// `span` owns its reserved range: the range was handed out and no part of it
    /// is free. A span that owns nothing is held by every arena.
    pub open spec fn holds(self, span: Span) -> bool {
        &&& span.len <= span.cap
        &&& span.end() <= self.top
        &&& forall|i: int| 0 <= i < self.holes.len() ==> span.disjoint(#[trigger] self.holes[i])
    }

    /// The live words of a span.
    pub open spec fn content(self, span: Span) -> Seq<u32> {
        self.words.subrange(span.start * self.stride, (span.start + span.len) * self.stride)
    }

    /// Room is left to hand out `cap` more instances.
    pub open spec fn has_room(self, cap: int) -> bool {
        self.top + cap <= u32::MAX && (self.top + cap) * self.stride <= u32::MAX
    }

    /// The state once `span` has been given back.
    pub open spec fn released(self, span: Span) -> ArenaState {
        if span.cap == 0 {
            self
        } else {
            ArenaState {
                holes: self.holes.push(Span { start: span.start, cap: span.cap, len: 0 }),
                ..self
            }
        }
    }

    /// The span handed out for `len` instances: the front of the first hole that
    /// is large enough, else the instances just above the bump pointer.
    pub open spec fn taken_span(self, len: int) -> Span {
        let cap = planned_cap(len);
        let i = first_fit(self.holes, cap, 0);
        let start = if i < self.holes.len() {
            self.holes[i].start as int
        } else {
            self.top
        };
        Span { start: start as u32, cap: cap as u32, len: len as u32 }
    }

    /// The state once room for `len` instances has been handed out.
    pub open spec fn taken(self, len: int) -> ArenaState {
        let cap = planned_cap(len);
        let i = first_fit(self.holes, cap, 0);
        if i < self.holes.len() {
            let hole = self.holes[i];
            let rest = swap_removed(self.holes, i);
            let holes = if hole.cap > cap {
                rest.push(
                    Span { start: (hole.start + cap) as u32, cap: (hole.cap - cap) as u32, len: 0 },
                )
            } else {
                rest
            };
            ArenaState { holes, ..self }
        } else {
            ArenaState {
                top: self.top + cap,
                words: self.words + Seq::new((cap * self.stride) as nat, |k: int| 0u32),
                ..self
            }
        }
    }

    /// Where `span` points after an allocation for `len` instances.
    pub open spec fn allocated_span(self, span: Span, len: int) -> Span {
        if len == 0 {
            Span::none()
        } else if span.cap >= len {
            Span { len: len as u32, ..span }
        } else {
            self.released(span).taken_span(len)
        }
    }

    /// The state after `span` was pointed at room for `len` instances.
    pub open spec fn allocated(self, span: Span, len: int) -> ArenaState {
        if len == 0 {
            self.released(span)
        } else if span.cap >= len {
            self
        } else {
            self.released(span).taken(len)
        }
    }
}

/// The instances of a span, as a set.
spec fn instances(span: Span) -> Set<int> {
    set_int_range(span.start as int, span.end())
}

/// The instances of all spans of a list, as a set.
spec fn all_instances(spans: Seq<Span>) -> Set<int>
    decreases spans.len(),
{
    if spans.len() == 0 {
        Set::empty()
    } else {
        all_instances(spans.drop_last()).union(instances(spans.last()))
    }
}

proof fn lemma_all_instances_contains(spans: Seq<Span>, x: int)
    ensures
        all_instances(spans).contains(x) <==> exists|i: int|
            0 <= i < spans.len() && (#[trigger] spans[i]).start <= x < spans[i].end(),
    decreases spans.len(),
{
    if spans.len() > 0 {
        let init = spans.drop_last();
        lemma_all_instances_contains(init, x);
        if all_instances(spans).contains(x) {
            if all_instances(init).contains(x) {
                let i = choose|i: int|
                    0 <= i < init.len() && (#[trigger] init[i]).start <= x < init[i].end();
                assert(spans[i].start <= x < spans[i].end());
            } else {
                let i = spans.len() - 1;
                assert(spans[i].start <= x < spans[i].end());
            }
        }
        if exists|i: int|
            0 <= i < spans.len() && (#[trigger] spans[i]).start <= x < spans[i].end() {
            let i = choose|i: int|
                0 <= i < spans.len() && (#[trigger] spans[i]).start <= x < spans[i].end();
            if i < init.len() {
                assert(init[i].start <= x < init[i].end());
            }
        }
    }
}

/// Disjoint spans below `top` reserve at most `top` instances together.
pub proof fn lemma_total_cap_bounded(spans: Seq<Span>, top: int)
    requires
        all_disjoint(spans),
        forall|i: int| 0 <= i < spans.len() ==> (#[trigger] spans[i]).end() <= top,
        0 <= top,
    ensures
        0 <= total_cap(spans) <= top,
{
    lemma_total_cap_counts(spans);
    let all = all_instances(spans);
    lemma_int_range(0, top);
    assert forall|x: int| all.contains(x) implies set_int_range(0, top).contains(x) by {
        lemma_all_instances_contains(spans, x);
        let i = choose|i: int|
            0 <= i < spans.len() && (#[trigger] spans[i]).start <= x < spans[i].end();
    }
    lemma_len_subset(all, set_int_range(0, top));
}

proof fn lemma_total_cap_counts(spans: Seq<Span>)
    requires
        all_disjoint(spans),
    ensures
        all_instances(spans).finite(),
        all_instances(spans).len() == total_cap(spans),
    decreases spans.len(),
{
    if spans.len() > 0 {
        let init = spans.drop_last();
        assert forall|i: int, j: int| 0 <= i < j < init.len() implies (#[trigger] init[i]).disjoint(
            #[trigger] init[j],
        ) by {
            assert(spans[i].disjoint(spans[j]));
        }
        lemma_total_cap_counts(init);
        lemma_int_range(spans.last().start as int, spans.last().end());
        assert(all_instances(init).disjoint(instances(spans.last()))) by {
            assert forall|x: int| all_instances(init).contains(x) implies !instances(
                spans.last(),
            ).contains(x) by {
                lemma_all_instances_contains(init, x);
                let i = choose|i: int|
                    0 <= i < init.len() && (#[trigger] init[i]).start <= x < init[i].end();
                assert(spans[i].disjoint(spans[spans.len() - 1]));
            }
        }
        lemma_set_disjoint_lens(all_instances(init), instances(spans.last()));
    }
}

proof fn lemma_total_cap_push(spans: Seq<Span>, span: Span)
    ensures
        total_cap(spans.push(span)) == total_cap(spans) + span.cap,
{
    assert(spans.push(span).drop_last() =~= spans);
}

proof fn lemma_total_cap_update(spans: Seq<Span>, i: int, span: Span)
    requires
        0 <= i < spans.len(),
    ensures
        total_cap(spans.update(i, span)) == total_cap(spans) - spans[i].cap + span.cap,
    decreases spans.len(),
{
    let new = spans.update(i, span);
    if i == spans.len() - 1 {
        assert(new.drop_last() =~= spans.drop_last());
    } else {
        assert(new.drop_last() =~= spans.drop_last().update(i, span));
        lemma_total_cap_update(spans.drop_last(), i, span);
    }
}

proof fn lemma_total_cap_swap_removed(spans: Seq<Span>, i: int)
    requires
        0 <= i < spans.len(),
    ensures
        total_cap(swap_removed(spans, i)) == total_cap(spans) - spans[i].cap,
{
    lemma_total_cap_update(spans, i, spans.last());
}

/// [`first_fit`] is the least index from which a large enough hole is found.
pub proof fn lemma_first_fit(holes: Seq<Span>, cap: int, from: int)
    requires
        0 <= from <= holes.len(),
    ensures
        from <= first_fit(holes, cap, from) <= holes.len(),
        first_fit(holes, cap, from) < holes.len() ==> holes[first_fit(holes, cap, from)].cap >= cap,
        forall|i: int| from <= i < first_fit(holes, cap, from) ==> (#[trigger] holes[i]).cap < cap,
    decreases holes.len() - from,
{
    if from < holes.len() && holes[from].cap < cap {
        lemma_first_fit(holes, cap, from + 1);
    }
}

proof fn lemma_content_kept(before: ArenaState, after: ArenaState, span: Span)
    requires
        before.valid(),
        before.holds(span),
        before.stride == after.stride,
        before.words.is_prefix_of(after.words),
    ensures
        after.content(span) == before.content(span),
{
    assert((span.start + span.len) * before.stride <= before.top * before.stride) by (nonlinear_arith)
        requires
            0 <= before.stride,
            span.start + span.len <= before.top,
    ;
    assert(span.start * before.stride <= (span.start + span.len) * before.stride) by (nonlinear_arith)
        requires
            0 <= before.stride,
    ;
    assert(0 <= span.start * before.stride) by (nonlinear_arith)
        requires
            0 <= before.stride,
    ;
    assert(before.words =~= after.words.take(before.words.len() as int));
    assert(after.content(span) =~= before.content(span));
}

/// Giving a held span back keeps the arena valid and every other held span held.
pub proof fn lemma_released(state: ArenaState, span: Span)
    requires
        state.valid(),
        state.holds(span),
    ensures
        state.released(span).valid(),
        forall|other: Span|
            #![trigger state.holds(other)]
            state.holds(other) && other.disjoint(span) ==> state.released(span).holds(other)
                && state.released(span).content(other) == state.content(other),
{
    if span.cap > 0 {
        let given = Span { start: span.start, cap: span.cap, len: 0 };
        let after = state.released(span);
        assert forall|i: int, j: int| 0 <= i < j < after.holes.len() implies (
        #[trigger] after.holes[i]).disjoint(#[trigger] after.holes[j]) by {
            if j < state.holes.len() {
                assert(state.holes[i].disjoint(state.holes[j]));
            } else {
                assert(span.disjoint(state.holes[i]));
            }
        }
        assert forall|other: Span|
            #![trigger state.holds(other)]
            state.holds(other) && other.disjoint(span) implies after.holds(other) by {
            assert forall|i: int| 0 <= i < after.holes.len() implies other.disjoint(
                #[trigger] after.holes[i],
            ) by {
                if i < state.holes.len() {
                    assert(other.disjoint(state.holes[i]));
                }
            }
        }
    }
}

/// Handing out room keeps the arena valid; the span handed out is held, and every
/// span held before is still held, keeps its content and shares nothing with it.
pub proof fn lemma_taken(state: ArenaState, len: int)
    requires
        state.valid(),
        0 < len <= u32::MAX,
        planned_cap(len) <= u32::MAX,
        state.has_room(planned_cap(len)),
    ensures
        state.taken(len).valid(),
        state.taken(len).holds(state.taken_span(len)),
        state.taken_span(len).len == len,
        state.taken_span(len).cap == planned_cap(len),
        forall|other: Span|
            #![trigger state.holds(other)]
            state.holds(other) ==> state.taken(len).holds(other) && other.disjoint(
                state.taken_span(len),
            ) && state.taken(len).content(other) == state.content(other),
{
    let cap = planned_cap(len);
    let i = first_fit(state.holes, cap, 0);
    lemma_first_fit(state.holes, cap, 0);
    let after = state.taken(len);
    let span = state.taken_span(len);
    if i < state.holes.len() {
        let hole = state.holes[i];
        let last = state.holes.len() - 1;
        assert(hole.end() <= state.top);
        // Every hole left is an old one other than the chosen one, or its tail.
        assert forall|k: int| 0 <= k < after.holes.len() implies {
            let left = #[trigger] after.holes[k];
            ||| left == (Span { start: (hole.start + cap) as u32, cap: (hole.cap - cap) as u32, len: 0 })
                && hole.cap > cap && k == after.holes.len() - 1
            ||| exists|m: int| 0 <= m <= last && m != i && #[trigger] state.holes[m] == left
        } by {
            if k < last {
                let m = if k == i {
                    last
                } else {
                    k
                };
                assert(state.holes[m] == after.holes[k]);
            }
        }
        assert(all_disjoint(after.holes)) by {
            assert forall|a: int, b: int| 0 <= a < b < after.holes.len() implies (
            #[trigger] after.holes[a]).disjoint(#[trigger] after.holes[b]) by {
                let ma = if a == i {
                    last
                } else {
                    a
                };
                assert(after.holes[a] == state.holes[ma]);
                if b < last {
                    let mb = if b == i {
                        last
                    } else {
                        b
                    };
                    assert(after.holes[b] == state.holes[mb]);
                    if ma < mb {
                        assert(state.holes[ma].disjoint(state.holes[mb]));
                    } else {
                        assert(state.holes[mb].disjoint(state.holes[ma]));
                    }
                } else {
                    if ma < i {
                        assert(state.holes[ma].disjoint(hole));
                    } else {
                        assert(hole.disjoint(state.holes[ma]));
                    }
                }
            }
        }
        assert forall|k: int| 0 <= k < after.holes.len() implies span.disjoint(
            #[trigger] after.holes[k],
        ) by {
            if exists|m: int| 0 <= m <= last && m != i && #[trigger] state.holes[m] == after.holes[k] {
                let m = choose|m: int|
                    0 <= m <= last && m != i && #[trigger] state.holes[m] == after.holes[k];
                if m < i {
                    assert(state.holes[m].disjoint(hole));
                } else {
                    assert(hole.disjoint(state.holes[m]));
                }
            }
        }
        assert forall|other: Span|
            #![trigger state.holds(other)]
            state.holds(other) implies after.holds(other) && other.disjoint(span)
            && after.content(other) == state.content(other) by {
            assert(other.disjoint(hole));
            assert forall|k: int| 0 <= k < after.holes.len() implies other.disjoint(
                #[trigger] after.holes[k],
            ) by {
                if exists|m: int|
                    0 <= m <= last && m != i && #[trigger] state.holes[m] == after.holes[k] {
                    let m = choose|m: int|
                        0 <= m <= last && m != i && #[trigger] state.holes[m] == after.holes[k];
                    assert(other.disjoint(state.holes[m]));
                }
            }
        }
    } else {
        assert(state.top * state.stride + cap * state.stride == (state.top + cap) * state.stride)
            by (nonlinear_arith);
        assert(0 <= cap * state.stride) by (nonlinear_arith)
            requires
                0 <= cap,
                0 <= state.stride,
        ;
        assert(state.words.is_prefix_of(after.words)) by {
            assert(state.words =~= after.words.take(state.words.len() as int));
        }
        assert forall|other: Span|
            #![trigger state.holds(other)]
            state.holds(other) implies after.holds(other) && other.disjoint(span)
            && after.content(other) == state.content(other) by {
            lemma_content_kept(state, after, other);
        }
    }
}

/// The live spans share out what is handed out and not free: each one is held, no two share
/// an instance, and their capacities and those of the holes add up to the bump pointer.
pub open spec fn accounts(state: ArenaState, live: Seq<Span>) -> bool {
    &&& forall|i: int| 0 <= i < live.len() ==> state.holds(#[trigger] live[i])
    &&& all_disjoint(live)
    &&& total_cap(live) + total_cap(state.holes) == state.top
}

/// A span that owns nothing joins the live ones without a change.
pub proof fn lemma_accounts_empty_span(state: ArenaState, live: Seq<Span>)
    requires
        state.valid(),
        accounts(state, live),
    ensures
        accounts(state, live.push(Span::none())),
{
    lemma_total_cap_push(live, Span::none());
}

/// A span that owns nothing leaves the live ones without a change.
pub proof fn lemma_accounts_without(state: ArenaState, live: Seq<Span>, i: int)
    requires
        state.valid(),
        accounts(state, live),
        0 <= i < live.len(),
        live[i].cap == 0,
    ensures
        accounts(state, live.remove(i)),
{
    let rest = live.remove(i);
    lemma_total_cap_remove(live, i);
    assert forall|k: int| 0 <= k < rest.len() implies state.holds(#[trigger] rest[k]) by {
        assert(rest[k] == live[if k < i {
            k
        } else {
            k + 1
        }]);
    }
    assert forall|j: int, k: int| 0 <= j < k < rest.len() implies (#[trigger] rest[j]).disjoint(
        #[trigger] rest[k],
    ) by {
        let was = |k: int|
            if k < i {
                k
            } else {
                k + 1
            };
        assert(live[was(j)].disjoint(live[was(k)]));
    }
}

proof fn lemma_total_cap_remove(spans: Seq<Span>, i: int)
    requires
        0 <= i < spans.len(),
    ensures
        total_cap(spans.remove(i)) == total_cap(spans) - spans[i].cap,
    decreases spans.len(),
{
    if i == spans.len() - 1 {
        assert(spans.remove(i) =~= spans.drop_last());
    } else {
        lemma_total_cap_remove(spans.drop_last(), i);
        assert(spans.remove(i).drop_last() =~= spans.drop_last().remove(i));
        assert(spans.remove(i).last() == spans.last());
    }
}

/// Giving a live span back keeps the accounts: its capacity moves to the free list.
pub proof fn lemma_release_keeps_accounts(state: ArenaState, live: Seq<Span>, i: int)
    requires
        state.valid(),
        accounts(state, live),
        0 <= i < live.len(),
    ensures
        accounts(state.released(live[i]), live.update(i, Span::none())),
        state.released(live[i]).top == state.top,
        forall|k: int|
            0 <= k < live.len() && k != i ==> state.released(live[i]).content(#[trigger] live[k])
                == state.content(live[k]),
{
    let span = live[i];
    let after = state.released(span);
    let rest = live.update(i, Span::none());
    lemma_released(state, span);
    lemma_total_cap_update(live, i, Span::none());
    lemma_total_cap_push(state.holes, Span { start: span.start, cap: span.cap, len: 0 });
    assert forall|k: int| 0 <= k < live.len() && k != i implies after.holds(#[trigger] live[k])
        && after.content(live[k]) == state.content(live[k]) by {
        assert(live[k].disjoint(live[i]) && live[i].disjoint(live[k])) by {
            if k < i {
                assert(live[k].disjoint(live[i]));
            } else {
                assert(live[i].disjoint(live[k]));
            }
        }
        assert(state.holds(live[k]));
    }
    assert forall|k: int| 0 <= k < rest.len() implies after.holds(#[trigger] rest[k]) by {
        if k != i {
            assert(rest[k] == live[k]);
        }
    }
    assert forall|j: int, k: int| 0 <= j < k < rest.len() implies (#[trigger] rest[j]).disjoint(
        #[trigger] rest[k],
    ) by {
        if j != i && k != i {
            assert(live[j].disjoint(live[k]));
        }
    }
}

/// Pointing a live span at room for other content keeps the accounts, with the span it now
/// points at. No other live span changes, nor does what is in it, and the bump pointer never
/// goes back.
pub proof fn lemma_allocation_keeps_accounts(state: ArenaState, live: Seq<Span>, i: int, len: int)
    requires
        state.valid(),
        accounts(state, live),
        0 <= i < live.len(),
        0 <= len <= u32::MAX,
        planned_cap(len) <= u32::MAX,
        state.has_room(planned_cap(len)),
    ensures
        accounts(state.allocated(live[i], len), live.update(i, state.allocated_span(live[i], len))),
        len == 0 ==> state.allocated_span(live[i], len) == Span::none(),
        len > 0 ==> state.allocated_span(live[i], len).len == len && state.allocated_span(
            live[i],
            len,
        ).cap >= len,
        state.allocated(live[i], len).top >= state.top,
        forall|k: int|
            0 <= k < live.len() && k != i ==> state.allocated(live[i], len).content(
                #[trigger] live[k],
            ) == state.content(live[k]),
{
    let span = live[i];
    lemma_release_keeps_accounts(state, live, i);
    if len == 0 {
    } else if span.cap >= len {
        let kept = Span { len: len as u32, ..span };
        let after = live.update(i, kept);
        lemma_total_cap_update(live, i, kept);
        assert(state.holds(live[i]));
        assert forall|k: int| 0 <= k < after.len() implies state.holds(#[trigger] after[k]) by {
            if k != i {
                assert(after[k] == live[k]);
            }
        }
        assert forall|j: int, k: int| 0 <= j < k < after.len() implies (
        #[trigger] after[j]).disjoint(#[trigger] after[k]) by {
            assert(live[j].disjoint(live[k]));
        }
    } else {
        let free = state.released(span);
        let rest = live.update(i, Span::none());
        lemma_released(state, span);
        lemma_taken(free, len);
        let taken = free.taken_span(len);
        let after = free.taken(len);
        let spans = live.update(i, taken);
        let cap = planned_cap(len);
        let at = first_fit(free.holes, cap, 0);
        lemma_first_fit(free.holes, cap, 0);
        lemma_total_cap_update(live, i, taken);
        lemma_total_cap_update(live, i, Span::none());
        if at < free.holes.len() {
            let hole = free.holes[at];
            lemma_total_cap_swap_removed(free.holes, at);
            lemma_total_cap_push(
                swap_removed(free.holes, at),
                Span { start: (hole.start + cap) as u32, cap: (hole.cap - cap) as u32, len: 0 },
            );
        }
        assert forall|k: int| 0 <= k < live.len() && k != i implies after.holds(#[trigger] live[k])
            && after.content(live[k]) == state.content(live[k]) && live[k].disjoint(taken) by {
            assert(rest[k] == live[k]);
            assert(free.holds(live[k]));
        }
        assert forall|k: int| 0 <= k < spans.len() implies after.holds(#[trigger] spans[k]) by {
            if k != i {
                assert(spans[k] == live[k]);
            }
        }
        assert forall|j: int, k: int| 0 <= j < k < spans.len() implies (
        #[trigger] spans[j]).disjoint(#[trigger] spans[k]) by {
            if j == i {
                assert(spans[k] == live[k]);
            } else if k == i {
                assert(spans[j] == live[j]);
            } else {
                assert(live[j].disjoint(live[k]));
            }
        }
    }
}

/// A growable instance buffer's mirror and allocator.
pub struct Arena {
    /// Words per instance.
    stride: u32,
    /// Mirror of the whole arena, `top * stride` words long.
    words: Vec<u32>,
    /// Instances the buffer can hold; 0 while there is none.
    capacity: u32,
    /// Bump pointer: instances at or above it were never handed out.
    top: u32,
    /// Released spans, `len` always 0.
    free: Vec<Span>,
    /// Instances sitting in `free`.
    freed: u32,
    /// The whole live prefix needs uploading again.
    full: bool,
}

impl View for Arena {
    type V = ArenaState;

    closed spec fn view(&self) -> ArenaState {
        ArenaState {
            stride: self.stride as int,
            words: self.words@,
            capacity: self.capacity as int,
            top: self.top as int,
            holes: self.free@,
            full: self.full,
        }
    }
}

impl Arena {
    /// The state is valid and the count of free instances is right.
    pub closed spec fn wf(&self) -> bool {
        self@.valid() && self.freed == total_cap(self.free@)
    }

    /// The state is valid.
    pub proof fn lemma_valid(&self)
        requires
            self.wf(),
        ensures
            self@.valid(),
    {
    }

    /// An empty arena for instances of `stride_bytes` bytes, a multiple of four.
    pub fn new(stride_bytes: usize) -> (arena: Arena)
        requires
            stride_bytes % 4 == 0,
            stride_bytes / 4 <= u32::MAX,
        ensures
            arena.wf(),
            arena@ == (ArenaState {
                stride: stride_bytes as int / 4,
                words: Seq::empty(),
                capacity: 0,
                top: 0,
                holes: Seq::empty(),
                full: false,
            }),
    {
        let arena = Arena {
            stride: (stride_bytes / 4) as u32,
            words: Vec::new(),
            capacity: 0,
            top: 0,
            free: Vec::new(),
            freed: 0,
            full: false,
        };
        assert(arena@.words =~= Seq::empty());
        assert(arena@.holes =~= Seq::empty());
        arena
    }

    /// Words per instance.
    pub fn stride(&self) -> (words: u32)
        ensures
            words == self@.stride,
    {
        self.stride
    }

    /// Bytes from the start of the buffer to a span's first instance.
    pub fn byte_offset(&self, span: Span) -> (offset: u64)
        requires
            span.start * self@.stride * 4 <= u64::MAX,
        ensures
            offset == span.start * self@.stride * 4,
    {
        assert(span.start * self.stride >= 0) by (nonlinear_arith);
        span.start as u64 * self.stride as u64 * 4
    }

    /// Instances handed out so far, live plus freed.
    pub fn top(&self) -> (top: u32)
        ensures
            top == self@.top,
    {
        self.top
    }

    /// Instances that the buffer holds.
    pub fn capacity(&self) -> (capacity: u32)
        ensures
            capacity == self@.capacity,
    {
        self.capacity
    }

    /// Instances sitting in the free list.
    pub fn freed(&self) -> (freed: u32)
        requires
            self.wf(),
        ensures
            freed == total_cap(self@.holes),
            freed <= self@.top,
    {
        proof {
            lemma_total_cap_bounded(self.free@, self.top as int);
        }
        self.freed
    }

    /// The share of the arena that sits in the free list, as a numerator and a
    /// denominator; nothing over one for an arena that handed nothing out.
    pub fn fragmentation(&self) -> (share: (u32, u32))
        requires
            self.wf(),
        ensures
            self@.top == 0 ==> share == (0u32, 1u32),
            self@.top > 0 ==> share.0 == total_cap(self@.holes) && share.1 == self@.top,
            share.0 <= share.1,
    {
        proof {
            lemma_total_cap_bounded(self.free@, self.top as int);
        }
        if self.top == 0 {
            (0, 1)
        } else {
            (self.freed, self.top)
        }
    }

    /// Whether enough of the arena sits in the free list to repack it.
    pub fn is_fragmented(&self) -> (yes: bool)
        requires
            self.wf(),
        ensures
            yes == (REPACK_DEN * total_cap(self@.holes) > REPACK_NUM * self@.top),
    {
        proof {
            lemma_total_cap_bounded(self.free@, self.top as int);
        }
        REPACK_DEN as u64 * self.freed as u64 > REPACK_NUM as u64 * self.top as u64
    }

    /// Whether room is left to hand out `len` more instances.
    pub fn has_room(&self, len: usize) -> (yes: bool)
        ensures
            yes == (planned_cap(len as int) <= u32::MAX && self@.has_room(
                planned_cap(len as int),
            )),
    {
        let n: u64 = if len > u32::MAX as usize {
            return false;
        } else {
            len as u64
        };
        let cap: u64 = (n + n / 4 + 7) / 8 * 8;
        if cap > u32::MAX as u64 {
            return false;
        }
        let top: u64 = self.top as u64 + cap;
        proof {
            assert(top * self.stride <= 0x2_0000_0000 * 0x1_0000_0000) by (nonlinear_arith)
                requires
                    0 <= top <= 0x2_0000_0000,
                    0 <= self.stride <= 0x1_0000_0000,
            ;
            assert(0 <= top * self.stride) by (nonlinear_arith)
                requires
                    0 <= top,
                    0 <= self.stride,
            ;
        }
        let words: u128 = top as u128 * self.stride as u128;
        top <= u32::MAX as u64 && words <= u32::MAX as u128
    }

    /// Points `span` at room for `len` instances. An allocation that still fits is
    /// kept where it is, the common case when a block's content changes shape
    /// slightly.
    pub fn allocate(&mut self, span: &mut Span, len: u32)
        requires
            old(self).wf(),
            old(self)@.holds(*old(span)),
            planned_cap(len as int) <= u32::MAX,
            old(self)@.has_room(planned_cap(len as int)),
        ensures
            final(self).wf(),
            final(self)@ == old(self)@.allocated(*old(span), len as int),
            *final(span) == old(self)@.allocated_span(*old(span), len as int),
            final(self)@.holds(*final(span)),
            final(span).len == len,
            forall|other: Span|
                #![trigger old(self)@.holds(other)]
                old(self)@.holds(other) && other.disjoint(*old(span)) ==> final(self)@.holds(other)
                    && other.disjoint(*final(span)) && final(self)@.content(other) == old(
                    self,
                )@.content(other),
    {
        if len == 0 {
            self.release(span);
            return;
        }
        if span.cap >= len {
            span.len = len;
            return;
        }
        self.release(span);
        proof {
            lemma_taken(self@, len as int);
        }
        *span = self.take(len);
    }

    /// Returns a span's storage to the free list and empties it.
    pub fn release(&mut self, span: &mut Span)
        requires
            old(self).wf(),
            old(self)@.holds(*old(span)),
        ensures
            final(self).wf(),
            final(self)@ == old(self)@.released(*old(span)),
            *final(span) == Span::none(),
            final(self)@.holds(*final(span)),
            forall|other: Span|
                #![trigger old(self)@.holds(other)]
                old(self)@.holds(other) && other.disjoint(*old(span)) ==> final(self)@.holds(other)
                    && final(self)@.content(other) == old(self)@.content(other),
    {
        proof {
            lemma_released(self@, *span);
            lemma_total_cap_bounded(self@.released(*span).holes, self.top as int);
            lemma_total_cap_push(self.free@, Span { start: span.start, cap: span.cap, len: 0 });
        }
        if span.cap > 0 {
            self.freed = self.freed + span.cap;
            self.free.push(Span { start: span.start, cap: span.cap, len: 0 });
        }
        *span = Span { start: 0, cap: 0, len: 0 };
        assert(self@ == old(self)@.released(*old(span)));
    }

    /// Hands out room for `len` instances: a hole that is large enough, else new
    /// instances above the bump pointer.
    fn take(&mut self, len: u32) -> (span: Span)
        requires
            old(self).wf(),
            0 < len,
            planned_cap(len as int) <= u32::MAX,
            old(self)@.has_room(planned_cap(len as int)),
        ensures
            final(self).wf(),
            final(self)@ == old(self)@.taken(len as int),
            span == old(self)@.taken_span(len as int),
    {
        let cap: u32 = plan_cap(len);
        let mut i: usize = 0;
        while i < self.free.len() && self.free[i].cap < cap
            invariant
                i <= self.free@.len(),
                first_fit(self.free@, cap as int, 0) == first_fit(self.free@, cap as int, i as int),
            decreases self.free@.len() - i,
        {
            i = i + 1;
        }
        proof {
            lemma_taken(self@, len as int);
            lemma_first_fit(self.free@, cap as int, 0);
            lemma_total_cap_bounded(self.free@, self.top as int);
        }
        if i < self.free.len() {
            proof {
                lemma_total_cap_swap_removed(self.free@, i as int);
                lemma_total_cap_bounded(self@.taken(len as int).holes, self.top as int);
            }
            let ghost holes = self.free@;
            let hole: Span = self.free.swap_remove(i);
            assert(self.free@ =~= swap_removed(holes, i as int));
            proof {
                assert(all_disjoint(self.free@)) by {
                    assert forall|a: int, b: int| 0 <= a < b < self.free@.len() implies (
                    #[trigger] self.free@[a]).disjoint(#[trigger] self.free@[b]) by {
                        let after = old(self)@.taken(len as int).holes;
                        assert(after[a].disjoint(after[b]));
                    }
                }
                assert forall|a: int| 0 <= a < self.free@.len() implies (
                #[trigger] self.free@[a]).end() <= self.top by {
                    let after = old(self)@.taken(len as int).holes;
                    assert(after[a] == self.free@[a]);
                }
                lemma_total_cap_bounded(self.free@, self.top as int);
            }
            self.freed = self.freed - hole.cap;
            if hole.cap > cap {
                let tail = Span { start: hole.start + cap, cap: hole.cap - cap, len: 0 };
                proof {
                    lemma_total_cap_push(self.free@, tail);
                }
                self.free.push(tail);
                self.freed = self.freed + tail.cap;
            }
            assert(self@ == old(self)@.taken(len as int));
            return Span { start: hole.start, cap, len };
        }
        let start: u32 = self.top;
        proof {
            assert(self.words@.len() + cap * self.stride == (self.top + cap) * self.stride)
                by (nonlinear_arith)
                requires
                    self.words@.len() == self.top * self.stride,
            ;
            assert(0 <= cap * self.stride) by (nonlinear_arith);
        }
        self.top = self.top + cap;
        self.words.resize(self.top as usize * self.stride as usize, 0);
        assert(self@.words =~= old(self)@.taken(len as int).words);
        Span { start, cap, len }
    }

    /// First and one past the last word of a span's live instances.
    fn words_of(&self, span: Span) -> (range: (usize, usize))
        requires
            self.wf(),
            self@.holds(span),
        ensures
            range.0 == span.start * self@.stride,
            range.1 == (span.start + span.len) * self@.stride,
            range.1 - range.0 == span.len * self@.stride,
            0 <= range.0 <= range.1 <= self@.words.len() <= u32::MAX,
    {
        proof {
            assert((span.start + span.len) * self.stride <= self.top * self.stride)
                by (nonlinear_arith)
                requires
                    span.start + span.len <= self.top,
            ;
            assert((span.start + span.len) * self.stride == span.start * self.stride + span.len
                * self.stride) by (nonlinear_arith);
            assert(0 <= span.start * self.stride) by (nonlinear_arith);
            assert(0 <= span.len * self.stride) by (nonlinear_arith);
        }
        let start: usize = span.start as usize * self.stride as usize;
        (start, start + span.len as usize * self.stride as usize)
    }

    /// Copies instances into a span's storage. `data` holds the words of `span.len`
    /// instances.
    pub fn write(&mut self, span: Span, data: &[u32])
        requires
            old(self).wf(),
            old(self)@.holds(span),
            data@.len() == span.len * old(self)@.stride,
        ensures
            final(self).wf(),
            final(self)@ == (ArenaState {
                words: old(self)@.words.take(span.start * old(self)@.stride) + data@ + old(
                    self,
                )@.words.skip((span.start + span.len) * old(self)@.stride),
                ..old(self)@
            }),
            final(self)@.content(span) == data@,
            forall|other: Span|
                #![trigger old(self)@.holds(other)]
                old(self)@.holds(other) && other.disjoint(span) ==> final(self)@.content(other)
                    == old(self)@.content(other),
    {
        let (first, end) = self.words_of(span);
        let mut k: usize = 0;
        while k < data.len()
            invariant
                k <= data@.len(),
                first + data@.len() == end <= self.words@.len(),
                self.words@.len() == old(self).words@.len(),
                self.words@ == old(self).words@.take(first as int) + data@.take(k as int)
                    + old(self).words@.skip(first + k),
                self.stride == old(self).stride,
                self.capacity == old(self).capacity,
                self.top == old(self).top,
                self.free == old(self).free,
                self.freed == old(self).freed,
                self.full == old(self).full,
            decreases data@.len() - k,
        {
            let ghost before = self.words@;
            self.words.set(first + k, data[k]);
            k = k + 1;
            assert(self.words@ =~= old(self).words@.take(first as int) + data@.take(k as int)
                + old(self).words@.skip(first + k));
        }
        assert(data@.take(k as int) =~= data@);
        assert(self@.content(span) =~= data@);
        proof {
            assert forall|other: Span|
                #![trigger old(self)@.holds(other)]
                old(self)@.holds(other) && other.disjoint(span) implies self@.content(other)
                == old(self)@.content(other) by {
                let stride = self.stride as int;
                assert(0 <= other.start * stride <= (other.start + other.len) * stride
                    <= self.top * stride) by (nonlinear_arith)
                    requires
                        0 <= stride,
                        other.start + other.len <= self.top,
                ;
                if other.len > 0 && span.len > 0 {
                    if other.end() <= span.start {
                        assert((other.start + other.len) * stride <= span.start * stride)
                            by (nonlinear_arith)
                            requires
                                0 <= stride,
                                other.start + other.len <= span.start,
                        ;
                    } else {
                        assert((span.start + span.len) * stride <= other.start * stride)
                            by (nonlinear_arith)
                            requires
                                0 <= stride,
                                span.start + span.len <= other.start,
                        ;
                    }
                }
                assert(self@.content(other) =~= old(self)@.content(other));
            }
        }
    }

    /// A span's live words.
    pub fn slice(&self, span: Span) -> (words: &[u32])
        requires
            self.wf(),
            self@.holds(span),
        ensures
            words@ == self@.content(span),
    {
        let (first, end) = self.words_of(span);
        vstd::slice::slice_subrange(self.words.as_slice(), first, end)
    }

    /// Replaces one word of a span's live instances, for in-place patching.
    pub fn patch(&mut self, span: Span, at: usize, word: u32)
        requires
            old(self).wf(),
            old(self)@.holds(span),
            at < span.len * old(self)@.stride,
        ensures
            final(self).wf(),
            final(self)@ == (ArenaState {
                words: old(self)@.words.update(span.start * old(self)@.stride + at, word),
                ..old(self)@
            }),
            final(self)@.content(span) == old(self)@.content(span).update(at as int, word),
    {
        let (first, end) = self.words_of(span);
        self.words.set(first + at, word);
        assert(self@.content(span) =~= old(self)@.content(span).update(at as int, word));
    }

    /// The mirror of the whole arena.
    pub fn words(&self) -> (words: &[u32])
        ensures
            words@ == self@.words,
    {
        self.words.as_slice()
    }

    /// Starts a repack: a buffer for the live instances, in draw order.
    pub fn repack_buffer(&self) -> (packed: Vec<u32>)
        ensures
            packed@ == Seq::<u32>::empty(),
    {
        Vec::with_capacity(self.words.len())
    }

    /// Appends one span's live instances to a repack buffer and says where they
    /// landed.
    pub fn repack_span(&self, packed: &mut Vec<u32>, span: Span) -> (moved: Span)
        requires
            self.wf(),
            self@.stride > 0,
            self@.holds(span),
            old(packed)@.len() % (self@.stride as nat) == 0,
            old(packed)@.len() + span.len * self@.stride <= u32::MAX,
        ensures
            final(packed)@ == old(packed)@ + self@.content(span),
            moved == moved_span(span, old(packed)@.len() as int / self@.stride),
            final(packed)@.len() % (self@.stride as nat) == 0,
            final(packed)@.len() as int / self@.stride == old(packed)@.len() as int / self@.stride
                + span.len,
    {
        let (first, end) = self.words_of(span);
        proof {
            lemma_append_instances(old(packed)@.len() as int, span.len as int, self@.stride);
        }
        if span.is_empty() {
            assert(self@.content(span) =~= Seq::empty());
            return Span::default();
        }
        let start: u32 = (packed.len() / self.stride as usize) as u32;
        packed.extend_from_slice(
            vstd::slice::slice_subrange(self.words.as_slice(), first, end),
        );
        assert(packed@ =~= old(packed)@ + self@.content(span));
        Span { start, cap: span.len, len: span.len }
    }

    /// Adopts a finished repack buffer: the free list is gone and the whole prefix
    /// has to be uploaded again.
    pub fn repack_finish(&mut self, packed: Vec<u32>)
        requires
            old(self).wf(),
            old(self)@.stride > 0,
            packed@.len() % (old(self)@.stride as nat) == 0,
            packed@.len() <= u32::MAX,
        ensures
            final(self).wf(),
            final(self)@ == old(self)@.repacked(packed@),
    {
        proof {
            vstd::arithmetic::div_mod::lemma_fundamental_div_mod(
                packed@.len() as int,
                self@.stride,
            );
            vstd::arithmetic::mul::lemma_mul_is_commutative(
                packed@.len() as int / self@.stride,
                self@.stride,
            );
            vstd::arithmetic::div_mod::lemma_div_nonincreasing(packed@.len() as int, self@.stride);
            vstd::arithmetic::div_mod::lemma_div_pos_is_pos(packed@.len() as int, self@.stride);
        }
        self.top = (packed.len() / self.stride as usize) as u32;
        self.words = packed;
        self.free.clear();
        self.freed = 0;
        self.full = true;
        assert(self@.holes =~= Seq::empty());
    }

    /// Makes sure the buffer holds the whole arena: the number of instances to make
    /// a new one for, where the present one does not. A new buffer starts empty, so
    /// this forces a full upload.
    pub fn reserve(&mut self) -> (room: Option<u32>)
        requires
            old(self).wf(),
            old(self)@.top <= 0x8000_0000,
        ensures
            final(self).wf(),
            old(self)@.top == 0 || old(self)@.top <= old(self)@.capacity ==> room is None
                && final(self)@ == old(self)@,
            0 < old(self)@.top && old(self)@.capacity < old(self)@.top ==> {
                &&& room is Some
                &&& is_power_of_two(room->0 as int)
                &&& old(self)@.top <= room->0 < 2 * old(self)@.top
                &&& final(self)@ == (ArenaState {
                    capacity: room->0 as int,
                    full: true,
                    ..old(self)@
                })
            },
    {
        if self.top == 0 || self.top <= self.capacity {
            return None;
        }
        let capacity: u32 = next_power_of_two(self.top);
        self.capacity = capacity;
        self.full = true;
        Some(capacity)
    }

    /// Whether the next upload has to cover the whole arena.
    pub fn needs_full_upload(&self) -> (full: bool)
        ensures
            full == self@.full,
    {
        self.full
    }

    /// Settles an upload of the whole live prefix, holes included, and says how many
    /// instances it writes: none where there is no buffer to write to.
    pub fn upload_all(&mut self) -> (written: u32)
        requires
            old(self).wf(),
        ensures
            final(self).wf(),
            final(self)@ == (ArenaState { full: false, ..old(self)@ }),
            written == (if old(self)@.capacity > 0 {
                old(self)@.top
            } else {
                0
            }),
    {
        self.full = false;
        if self.capacity > 0 {
            self.top
        } else {
            0
        }
    }

    /// The byte offset and the words of an upload of one span; nothing where the span
    /// is empty or there is no buffer to write to.
    pub fn upload(&self, span: Span) -> (piece: Option<(u64, &[u32])>)
        requires
            self.wf(),
            self@.holds(span),
        ensures
            piece is Some <==> self@.capacity > 0 && span.len > 0,
            piece matches Some(p) ==> p.0 == span.start * self@.stride * 4 && p.1@ == self@.content(
                span,
            ),
    {
        if self.capacity == 0 || span.is_empty() {
            return None;
        }
        let (first, end) = self.words_of(span);
        Some((self.byte_offset(span), self.slice(span)))
    }
}

/// `n` is 1, 2, 4 and so on.
pub open spec fn is_power_of_two(n: int) -> bool {
    exists|k: nat| n == #[trigger] vstd::arithmetic::power2::pow2(k)
}

/// The least power of two that is at least `n`.
pub(crate) fn next_power_of_two(n: u32) -> (p: u32)
    requires
        0 < n <= 0x8000_0000,
    ensures
        is_power_of_two(p as int),
        n <= p < 2 * n,
{
    let mut p: u32 = 1;
    let ghost mut k: nat = 0;
    proof {
        vstd::arithmetic::power2::lemma2_to64();
    }
    while p < n
        invariant
            p == vstd::arithmetic::power2::pow2(k),
            0 < n <= 0x8000_0000,
            1 <= p < 2 * n,
        decreases 2 * n - p,
    {
        proof {
            vstd::arithmetic::power2::lemma_pow2_unfold(k + 1);
            k = k + 1;
        }
        p = p * 2;
    }
    p
}

/// Where a span's live instances land when they are appended as instance `at`.
pub open spec fn moved_span(span: Span, at: int) -> Span {
    if span.len == 0 {
        Span::none()
    } else {
        Span { start: at as u32, cap: span.len, len: span.len }
    }
}

impl ArenaState {
    /// The state once a repack buffer has been adopted.
    pub open spec fn repacked(self, packed: Seq<u32>) -> ArenaState {
        ArenaState {
            top: packed.len() as int / self.stride,
            words: packed,
            holes: Seq::empty(),
            full: true,
            ..self
        }
    }

    /// The live words of a list of spans, one after the other.
    pub open spec fn packed(self, spans: Seq<Span>) -> Seq<u32>
        decreases spans.len(),
    {
        if spans.len() == 0 {
            Seq::empty()
        } else {
            self.packed(spans.drop_last()) + self.content(spans.last())
        }
    }
}

/// Live instances of a list of spans.
pub open spec fn total_len(spans: Seq<Span>) -> int
    decreases spans.len(),
{
    if spans.len() == 0 {
        0
    } else {
        total_len(spans.drop_last()) + spans.last().len
    }
}

/// Where the spans of a list land when they are repacked one after the other.
pub open spec fn moved_spans(spans: Seq<Span>) -> Seq<Span> {
    Seq::new(spans.len(), |i: int| moved_span(spans[i], total_len(spans.take(i))))
}

proof fn lemma_append_instances(words: int, len: int, stride: int)
    requires
        0 < stride,
        0 <= words,
        0 <= len,
        words % stride == 0,
    ensures
        (words + len * stride) % stride == 0,
        (words + len * stride) / stride == words / stride + len,
{
    vstd::arithmetic::div_mod::lemma_mod_multiples_vanish(len, words, stride);
    vstd::arithmetic::div_mod::lemma_hoist_over_denominator(words, len, stride as nat);
    vstd::arithmetic::mul::lemma_mul_is_commutative(len, stride);
}

/// A held span's live words lie in the arena.
pub proof fn lemma_content_len(state: ArenaState, span: Span)
    requires
        state.valid(),
        state.holds(span),
    ensures
        state.content(span).len() == span.len * state.stride,
        0 <= span.start * state.stride <= (span.start + span.len) * state.stride
            <= state.words.len(),
{
    assert(0 <= span.start * state.stride <= (span.start + span.len) * state.stride <= state.top
        * state.stride) by (nonlinear_arith)
        requires
            0 <= state.stride,
            span.start + span.len <= state.top,
    ;
    assert((span.start + span.len) * state.stride - span.start * state.stride == span.len
        * state.stride) by (nonlinear_arith);
}

proof fn lemma_packed_prefix(state: ArenaState, spans: Seq<Span>, n: int)
    requires
        state.valid(),
        forall|i: int| 0 <= i < spans.len() ==> state.holds(#[trigger] spans[i]),
        0 <= n <= spans.len(),
    ensures
        state.packed(spans).len() == total_len(spans) * state.stride,
        state.packed(spans.take(n)).is_prefix_of(state.packed(spans)),
        total_len(spans.take(n)) <= total_len(spans),
        0 <= total_len(spans),
    decreases spans.len(),
{
    if spans.len() > 0 {
        let init = spans.drop_last();
        assert(forall|i: int| 0 <= i < init.len() ==> (#[trigger] init[i]) == spans[i]);
        lemma_content_len(state, spans.last());
        let m = if n < spans.len() {
            n
        } else {
            n - 1
        };
        lemma_packed_prefix(state, init, m);
        assert((total_len(init) + spans.last().len) * state.stride == total_len(init) * state.stride
            + spans.last().len * state.stride) by (nonlinear_arith);
        if n < spans.len() {
            assert(init.take(n) =~= spans.take(n));
            let part = state.packed(spans.take(n));
            assert(part =~= state.packed(spans).take(part.len() as int));
        } else {
            assert(spans.take(n) =~= spans);
            assert(state.packed(spans) =~= state.packed(spans).take(
                state.packed(spans).len() as int,
            ));
        }
    } else {
        assert(spans.take(n) =~= spans);
        assert(0 * state.stride == 0) by (nonlinear_arith);
    }
}

/// Repacking live spans keeps each one's content and closes every gap: the spans
/// land in the order they are given, each right behind the one before, and the
/// arena hands out exactly their live instances.
pub proof fn lemma_repack_keeps_content(state: ArenaState, spans: Seq<Span>)
    requires
        state.valid(),
        state.stride > 0,
        all_disjoint(spans),
        forall|i: int| 0 <= i < spans.len() ==> state.holds(#[trigger] spans[i]),
    ensures
        ({
            let after = state.repacked(state.packed(spans));
            let moved = moved_spans(spans);
            &&& after.valid()
            &&& after.top == total_len(spans)
            &&& after.holes.len() == 0
            &&& all_disjoint(moved)
            &&& forall|i: int|
                0 <= i < spans.len() ==> {
                    &&& after.holds(#[trigger] moved[i])
                    &&& moved[i].len == spans[i].len
                    &&& after.content(moved[i]) == state.content(spans[i])
                    &&& spans[i].len > 0 ==> moved[i].start == total_len(spans.take(i))
                }
        }),
{
    let after = state.repacked(state.packed(spans));
    let moved = moved_spans(spans);
    let stride = state.stride;
    lemma_packed_prefix(state, spans, 0);
    lemma_total_cap_bounded(spans, state.top);
    lemma_total_len_bounded(spans);
    assert(total_len(spans) * stride <= state.top * stride) by (nonlinear_arith)
        requires
            0 <= stride,
            total_len(spans) <= state.top,
    ;
    vstd::arithmetic::div_mod::lemma_div_by_multiple(total_len(spans), stride);
    assert forall|i: int| 0 <= i < spans.len() implies {
        &&& after.holds(#[trigger] moved[i])
        &&& moved[i].len == spans[i].len
        &&& after.content(moved[i]) == state.content(spans[i])
        &&& spans[i].len > 0 ==> moved[i].start == total_len(spans.take(i))
    } by {
        let start = total_len(spans.take(i));
        lemma_packed_prefix(state, spans, i);
        lemma_packed_prefix(state, spans, i + 1);
        lemma_packed_prefix(state, spans.take(i), 0);
        lemma_packed_prefix(state, spans.take(i + 1), 0);
        assert(spans.take(i + 1).drop_last() =~= spans.take(i));
        assert(spans.take(i + 1).last() == spans[i]);
        lemma_content_len(state, spans[i]);
        let part = state.packed(spans.take(i + 1));
        assert(part =~= after.words.take(part.len() as int));
        let lead = state.packed(spans.take(i));
        assert(total_len(spans.take(i + 1)) == start + spans[i].len);
        assert(lead.len() == start * stride);
        assert(part.len() == (start + spans[i].len) * stride);
        assert(part == lead + state.content(spans[i]));
        if spans[i].len > 0 {
            assert(moved[i].start == start);
            assert(after.words.subrange(start * stride, (start + spans[i].len) * stride)
                =~= part.subrange(lead.len() as int, part.len() as int));
            assert(part.subrange(lead.len() as int, part.len() as int) =~= state.content(spans[i]));
            assert(after.content(moved[i]) =~= state.content(spans[i]));
        } else {
            assert(state.content(spans[i]) =~= Seq::empty());
            assert(after.content(moved[i]) =~= Seq::empty()) by {
                assert(0 * stride == 0) by (nonlinear_arith);
            }
        }
    }
    assert forall|i: int, j: int| 0 <= i < j < moved.len() implies (#[trigger] moved[i]).disjoint(
        #[trigger] moved[j],
    ) by {
        lemma_packed_prefix(state, spans.take(j), i + 1);
        assert(spans.take(j).take(i + 1) =~= spans.take(i + 1));
        assert(spans.take(i + 1).drop_last() =~= spans.take(i));
        assert(after.holds(moved[i]) && after.holds(moved[j]));
    }
}

proof fn lemma_total_len_bounded(spans: Seq<Span>)
    requires
        forall|i: int| 0 <= i < spans.len() ==> (#[trigger] spans[i]).len <= spans[i].cap,
    ensures
        total_len(spans) <= total_cap(spans),
    decreases spans.len(),
{
    if spans.len() > 0 {
        let init = spans.drop_last();
        assert(forall|i: int| 0 <= i < init.len() ==> (#[trigger] init[i]) == spans[i]);
        lemma_total_len_bounded(init);
    }
}

/// Live spans put one after the other take no more words than the arena has.
pub proof fn lemma_packed_len(state: ArenaState, spans: Seq<Span>)
    requires
        state.valid(),
        all_disjoint(spans),
        forall|i: int| 0 <= i < spans.len() ==> state.holds(#[trigger] spans[i]),
    ensures
        state.packed(spans).len() == total_len(spans) * state.stride,
        state.packed(spans).len() <= state.words.len(),
        0 <= total_len(spans) <= state.top,
{
    lemma_packed_prefix(state, spans, 0);
    lemma_total_cap_bounded(spans, state.top);
    lemma_total_len_bounded(spans);
    assert(total_len(spans) * state.stride <= state.top * state.stride) by (nonlinear_arith)
        requires
            0 <= state.stride,
            total_len(spans) <= state.top,
    ;
}

/// Pointing a held span at room keeps the arena valid; the new span is held, and every
/// other held span is still held, keeps its content and shares nothing with it.
pub proof fn lemma_allocated(state: ArenaState, span: Span, len: int)
    requires
        state.valid(),
        state.holds(span),
        0 <= len <= u32::MAX,
        planned_cap(len) <= u32::MAX,
        state.has_room(planned_cap(len)),
    ensures
        state.allocated(span, len).valid(),
        state.allocated(span, len).holds(state.allocated_span(span, len)),
        state.allocated_span(span, len).len == len,
        forall|other: Span|
            #![trigger state.holds(other)]
            state.holds(other) && other.disjoint(span) ==> state.allocated(span, len).holds(other)
                && other.disjoint(state.allocated_span(span, len)) && state.allocated(
                span,
                len,
            ).content(other) == state.content(other),
{
    lemma_released(state, span);
    if len > 0 && span.cap < len {
        let middle = state.released(span);
        lemma_taken(middle, len);
        assert forall|other: Span|
            #![trigger state.holds(other)]
            state.holds(other) && other.disjoint(span) implies state.allocated(span, len).holds(
            other,
        ) && other.disjoint(state.allocated_span(span, len)) && state.allocated(
            span,
            len,
        ).content(other) == state.content(other) by {
            assert(middle.holds(other));
        }
    }
}

/// The arena with other words in a held span.
pub open spec fn written(state: ArenaState, span: Span, data: Seq<u32>) -> ArenaState {
    ArenaState {
        words: state.words.take(span.start * state.stride) + data + state.words.skip(
            (span.start + span.len) * state.stride,
        ),
        ..state
    }
}

proof fn lemma_moved_cap(spans: Seq<Span>, n: int)
    requires
        0 <= n <= spans.len(),
    ensures
        total_cap(moved_spans(spans).take(n)) == total_len(spans.take(n)),
    decreases n,
{
    if n > 0 {
        lemma_moved_cap(spans, n - 1);
        assert(moved_spans(spans).take(n).drop_last() =~= moved_spans(spans).take(n - 1));
        assert(spans.take(n).drop_last() =~= spans.take(n - 1));
        assert(moved_spans(spans).take(n).last() == moved_spans(spans)[n - 1]);
        assert(spans.take(n).last() == spans[n - 1]);
    }
}

/// After a repack the accounts hold of the moved spans, and nothing is free.
pub proof fn lemma_repack_accounts(state: ArenaState, spans: Seq<Span>)
    requires
        state.valid(),
        state.stride > 0,
        all_disjoint(spans),
        forall|i: int| 0 <= i < spans.len() ==> state.holds(#[trigger] spans[i]),
    ensures
        accounts(state.repacked(state.packed(spans)), moved_spans(spans)),
        total_cap(state.repacked(state.packed(spans)).holes) == 0,
{
    lemma_repack_keeps_content(state, spans);
    lemma_moved_cap(spans, spans.len() as int);
    assert(moved_spans(spans).take(spans.len() as int) =~= moved_spans(spans));
    assert(spans.take(spans.len() as int) =~= spans);
}

/// Writing a held span changes its content and no other span's.
pub proof fn lemma_written(state: ArenaState, span: Span, data: Seq<u32>)
    requires
        state.valid(),
        state.holds(span),
        data.len() == span.len * state.stride,
    ensures
        written(state, span, data).valid(),
        written(state, span, data).content(span) == data,
        forall|other: Span|
            #![trigger state.holds(other)]
            state.holds(other) ==> written(state, span, data).holds(other),
        forall|other: Span|
            #![trigger state.holds(other)]
            state.holds(other) && other.disjoint(span) ==> written(state, span, data).content(other)
                == state.content(other),
{
    let after = written(state, span, data);
    let stride = state.stride;
    lemma_content_len(state, span);
    assert(after.words.len() == state.words.len());
    assert(after.content(span) =~= data);
    assert forall|other: Span|
        #![trigger state.holds(other)]
        state.holds(other) && other.disjoint(span) implies after.content(other) == state.content(
        other,
    ) by {
        lemma_content_len(state, other);
        if other.len > 0 && span.len > 0 {
            if other.end() <= span.start {
                assert((other.start + other.len) * stride <= span.start * stride)
                    by (nonlinear_arith)
                    requires
                        0 <= stride,
                        other.start + other.len <= span.start,
                ;
            } else {
                assert((span.start + span.len) * stride <= other.start * stride)
                    by (nonlinear_arith)
                    requires
                        0 <= stride,
                        span.start + span.len <= other.start,
                ;
            }
        }
        assert(after.content(other) =~= state.content(other));
    }
}

/// Room is planned with a quarter to spare, in steps of eight.
pub proof fn lemma_planned_cap(len: int)
    requires
        0 <= len,
    ensures
        len + len / 4 <= planned_cap(len) < len + len / 4 + 8,
        planned_cap(len) % 8 == 0,
        planned_cap(0) == 0,
{
}

/// The free places, and that of a span that is given back.
pub open spec fn with_place_of(holes: Seq<Span>, span: Span) -> Seq<Span> {
    if span.cap == 0 {
        holes
    } else {
        holes.push(Span { start: span.start, cap: span.cap, len: 0 })
    }
}

/// Content that still fits stays where it is. Otherwise its room is given back, and new room
/// is taken from the front of a free place that is large enough, without moving the bump
/// pointer, or where there is none at the bump pointer, by as much as is planned for it.
#[verifier::spinoff_prover]
pub proof fn lemma_allocation_reuses(state: ArenaState, span: Span, len: int)
    requires
        state.valid(),
        state.holds(span),
        0 < len <= u32::MAX,
        planned_cap(len) <= u32::MAX,
        state.has_room(planned_cap(len)),
    ensures
        span.cap >= len ==> state.allocated(span, len) == state && state.allocated_span(span, len)
            == (Span { start: span.start, cap: span.cap, len: len as u32 }),
        span.cap < len && (exists|i: int|
            0 <= i < with_place_of(state.holes, span).len() && (#[trigger] with_place_of(
                state.holes,
                span,
            )[i]).cap >= planned_cap(len)) ==> state.allocated(span, len).top == state.top
            && state.allocated(span, len).words == state.words && exists|i: int|
            0 <= i < with_place_of(state.holes, span).len() && (#[trigger] with_place_of(
                state.holes,
                span,
            )[i]).start == state.allocated_span(span, len).start && with_place_of(
                state.holes,
                span,
            )[i].cap >= state.allocated_span(span, len).cap,
        span.cap < len && (forall|i: int|
            0 <= i < with_place_of(state.holes, span).len() ==> (#[trigger] with_place_of(
                state.holes,
                span,
            )[i]).cap < planned_cap(len)) ==> state.allocated(span, len).top == state.top
            + planned_cap(len) && state.allocated_span(span, len).start == state.top,
{
    let free = with_place_of(state.holes, span);
    if span.cap < len {
        let cap = planned_cap(len);
        let now = state.allocated_span(span, len);
        assert(free == state.released(span).holes);
        lemma_first_fit(free, cap, 0);
        let i = first_fit(free, cap, 0);
        if i < free.len() {
            assert(with_place_of(state.holes, span)[i].start == now.start);
        } else {
            assert(now.start == state.top as u32);
        }
    }
}

} // verus!
