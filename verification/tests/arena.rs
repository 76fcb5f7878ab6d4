use faf_text::arena::{plan_cap, Arena, Span};

/// Instances of one word, so element indices are word indices.
fn arena() -> Arena {
    Arena::new(4)
}

#[test]
fn allocations_bump_then_reuse_the_free_list() {
    let mut arena = arena();
    let mut a = Span::default();
    let mut b = Span::default();
    arena.allocate(&mut a, 4);
    arena.allocate(&mut b, 4);
    assert_eq!(a.start, 0);
    assert_eq!(b.start, plan_cap(4));
    assert_eq!(arena.freed(), 0);

    arena.release(&mut a);
    assert_eq!(arena.freed(), plan_cap(4));
    let mut c = Span::default();
    arena.allocate(&mut c, 4);
    assert_eq!(c.start, 0, "the hole is reused before the bump pointer");
    assert_eq!(arena.freed(), 0);
}

#[test]
fn a_span_that_still_fits_is_not_reallocated() {
    let mut arena = arena();
    let mut span = Span::default();
    arena.allocate(&mut span, 8);
    let start = span.start;
    arena.allocate(&mut span, 3);
    assert_eq!((span.start, span.len), (start, 3));
    assert_eq!(arena.freed(), 0, "shrinking must not churn the free list");
    arena.allocate(&mut span, 8);
    assert_eq!((span.start, span.len), (start, 8));
    assert_eq!(arena.top(), plan_cap(8));
}

#[test]
fn a_large_hole_is_split_and_the_remainder_stays_free() {
    let mut arena = arena();
    let mut big = Span::default();
    arena.allocate(&mut big, 64);
    let cap = big.cap;
    arena.release(&mut big);

    let mut small = Span::default();
    arena.allocate(&mut small, 1);
    assert_eq!(small.start, 0);
    assert_eq!(arena.freed(), cap - small.cap, "the tail stayed free");
    assert_eq!(arena.top(), cap, "no bump-pointer growth");
}

#[test]
fn repacking_compacts_live_spans_in_order() {
    let mut arena = arena();
    let mut spans = [Span::default(); 3];
    for (i, span) in spans.iter_mut().enumerate() {
        arena.allocate(span, 4);
        arena.write(*span, &[i as u32 * 10; 4]);
    }
    arena.release(&mut spans[1]);
    assert!(arena.fragmentation().0 > 0);

    let mut packed = arena.repack_buffer();
    for span in &mut spans {
        *span = arena.repack_span(&mut packed, *span);
    }
    arena.repack_finish(packed);

    assert_eq!(arena.freed(), 0);
    assert_eq!(arena.top(), 8, "two live spans of four, tightly packed");
    assert_eq!(spans[0].start, 0);
    assert_eq!(spans[1], Span::default());
    assert_eq!(spans[2].start, 4);
    assert_eq!(arena.slice(spans[2]), &[20; 4]);
    assert!(arena.needs_full_upload());
}

#[test]
fn capacities_add_a_quarter_and_round_up_to_eight() {
    assert_eq!(plan_cap(0), 0);
    assert_eq!(plan_cap(1), 8);
    assert_eq!(plan_cap(6), 8);
    assert_eq!(plan_cap(8), 16);
    assert_eq!(plan_cap(64), 80);
}

#[test]
fn fragmentation_is_the_freed_share_and_repacks_past_one_half() {
    let mut arena = arena();
    assert_eq!(arena.fragmentation(), (0, 1));
    let mut spans = [Span::default(); 4];
    for span in &mut spans {
        arena.allocate(span, 4);
    }
    arena.release(&mut spans[0]);
    arena.release(&mut spans[1]);
    assert_eq!(arena.fragmentation(), (16, 32));
    assert!(!arena.is_fragmented(), "exactly half is not past it");
    arena.release(&mut spans[2]);
    assert!(arena.is_fragmented());
}

#[test]
fn a_buffer_is_made_for_the_next_power_of_two_and_kept_while_it_fits() {
    let mut arena = arena();
    assert_eq!(arena.reserve(), None, "an empty arena needs no buffer");
    let mut span = Span::default();
    arena.allocate(&mut span, 12);
    assert_eq!(arena.upload(span), None, "there is no buffer to write to yet");
    assert_eq!(arena.upload_all(), 0);
    assert_eq!(arena.reserve(), Some(16));
    assert!(arena.needs_full_upload());
    assert_eq!(arena.reserve(), None);
    assert_eq!(arena.upload_all(), 16);
    assert!(!arena.needs_full_upload());
    arena.write(span, &[7; 12]);
    assert_eq!(arena.upload(span), Some((0, &[7u32; 12][..])));
    assert_eq!(arena.upload(Span::default()), None, "nothing to write");
    let mut more = Span::default();
    arena.allocate(&mut more, 1);
    assert_eq!(arena.reserve(), Some(32));
    assert_eq!(arena.byte_offset(more), 16 * 4);
}

#[test]
fn patching_a_word_leaves_the_rest_of_the_span_alone() {
    let mut arena = Arena::new(8);
    let mut span = Span::default();
    arena.allocate(&mut span, 2);
    arena.write(span, &[1, 2, 3, 4]);
    arena.patch(span, 2, 9);
    assert_eq!(arena.slice(span), &[1, 2, 9, 4]);
    assert_eq!(arena.words().len(), 16);
}

#[test]
fn live_and_freed_capacities_add_up_to_what_was_handed_out() {
    let mut arena = arena();
    let mut live = vec![Span::default(); 6];
    let mut top = 0;
    for (step, len) in [5u32, 40, 3, 0, 17, 64, 8, 1, 100, 0, 33, 2, 0, 12].iter().enumerate() {
        let at = step * 5 % live.len();
        if step % 4 == 3 {
            arena.release(&mut live[at]);
            assert_eq!(live[at], Span::default());
        } else {
            arena.allocate(&mut live[at], *len);
            assert_eq!(live[at].len, *len);
            assert!(live[at].cap >= *len);
        }
        let held: u32 = live.iter().map(|span| span.cap).sum();
        assert_eq!(held + arena.freed(), arena.top(), "step {step}");
        assert!(arena.top() >= top);
        top = arena.top();
    }
}
