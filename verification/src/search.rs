//! Literal search: the disjoint occurrences of a needle, from the left.
use vstd::prelude::*;

verus! {

/// The needle stands at an offset.
#[verifier::opaque]
pub open spec fn occurs_at(hay: Seq<u8>, needle: Seq<u8>, at: int) -> bool {
    0 <= at && at + needle.len() <= hay.len() && hay.subrange(at, at + needle.len()) == needle
}

/// Where the needle is found from an offset on: each match is searched for behind the one
/// before it. An empty needle is found nowhere.
pub open spec fn matches_from(hay: Seq<u8>, needle: Seq<u8>, from: int) -> Seq<int>
    decreases hay.len() - from,
{
    if needle.len() == 0 || from + needle.len() > hay.len() {
        seq![]
    } else if occurs_at(hay, needle, from) {
        seq![from] + matches_from(hay, needle, from + needle.len())
    } else {
        matches_from(hay, needle, from + 1)
    }
}

/// An offset lies in one of the matches.
pub open spec fn covered(found: Seq<int>, len: int, at: int) -> bool {
    exists|i: int| 0 <= i < found.len() && #[trigger] found[i] <= at < found[i] + len
}

/// Each match is an occurrence.
pub open spec fn all_occur(hay: Seq<u8>, needle: Seq<u8>, from: int, found: Seq<int>) -> bool {
    forall|i: int|
        0 <= i < found.len() ==> from <= #[trigger] found[i] && occurs_at(hay, needle, found[i])
}

/// The matches come from left to right, and no two overlap.
pub open spec fn all_apart(found: Seq<int>, len: int) -> bool {
    forall|i: int, j: int|
        0 <= i < j < found.len() ==> #[trigger] found[i] + len <= #[trigger] found[j]
}

/// No occurrence is missed, but for one that overlaps a match before it.
pub open spec fn none_missed(hay: Seq<u8>, needle: Seq<u8>, from: int, found: Seq<int>) -> bool {
    forall|at: int| #[trigger]
        occurs_at(hay, needle, at) && from <= at ==> covered(found, needle.len() as int, at)
}

/// Every match is an occurrence, they come from left to right, no two overlap, and no
/// occurrence is missed but those that overlap a match before them.
pub proof fn lemma_matches(hay: Seq<u8>, needle: Seq<u8>, from: int)
    requires
        0 < needle.len(),
        0 <= from,
    ensures
        all_occur(hay, needle, from, matches_from(hay, needle, from)),
        all_apart(matches_from(hay, needle, from), needle.len() as int),
        none_missed(hay, needle, from, matches_from(hay, needle, from)),
    decreases hay.len() - from,
{
    if from + needle.len() > hay.len() {
        reveal(occurs_at);
    } else if occurs_at(hay, needle, from) {
        lemma_matches(hay, needle, from + needle.len());
        lemma_match_in_front(
            hay,
            needle,
            from,
            matches_from(hay, needle, from + needle.len()),
        );
    } else {
        lemma_matches(hay, needle, from + 1);
    }
}

proof fn lemma_match_in_front(hay: Seq<u8>, needle: Seq<u8>, from: int, rest: Seq<int>)
    requires
        occurs_at(hay, needle, from),
        all_occur(hay, needle, from + needle.len(), rest),
        all_apart(rest, needle.len() as int),
        none_missed(hay, needle, from + needle.len(), rest),
    ensures
        all_occur(hay, needle, from, seq![from] + rest),
        all_apart(seq![from] + rest, needle.len() as int),
        none_missed(hay, needle, from, seq![from] + rest),
{
    let found = seq![from] + rest;
    assert forall|i: int| 0 <= i < found.len() implies from <= #[trigger] found[i] && occurs_at(
        hay,
        needle,
        found[i],
    ) by {
        if i > 0 {
            assert(found[i] == rest[i - 1]);
        }
    }
    assert forall|i: int, j: int| 0 <= i < j < found.len() implies #[trigger] found[i]
        + needle.len() <= #[trigger] found[j] by {
        assert(found[j] == rest[j - 1]);
        if i > 0 {
            assert(found[i] == rest[i - 1]);
        }
    }
    assert forall|at: int| #[trigger] occurs_at(hay, needle, at) && from <= at implies covered(
        found,
        needle.len() as int,
        at,
    ) by {
        if at < from + needle.len() {
            assert(found[0] == from);
        } else {
            let i = choose|i: int|
                0 <= i < rest.len() && #[trigger] rest[i] <= at < rest[i] + needle.len();
            assert(found[i + 1] == rest[i]);
        }
    }
}

/// Whether the needle stands at an offset.
fn stands_at(hay: &[u8], needle: &[u8], at: usize) -> (yes: bool)
    requires
        at + needle@.len() <= hay@.len(),
    ensures
        yes == occurs_at(hay@, needle@, at as int),
{
    let total: usize = hay.len();
    let mut i: usize = 0;
    while i < needle.len()
        invariant
            i <= needle@.len(),
            total == hay@.len(),
            at + needle@.len() <= total,
            forall|k: int| 0 <= k < i ==> hay@[at + k] == #[trigger] needle@[k],
        decreases needle@.len() - i,
    {
        if hay[at + i] != needle[i] {
            proof {
                reveal(occurs_at);
                assert(hay@.subrange(at as int, at + needle@.len())[i as int]
                    != needle@[i as int]);
            }
            return false;
        }
        i = i + 1;
    }
    proof {
        reveal(occurs_at);
        assert(hay@.subrange(at as int, at + needle@.len()) =~= needle@);
    }
    true
}

/// The offset of each match as a number.
pub open spec fn as_ints(offsets: Seq<usize>) -> Seq<int> {
    offsets.map_values(|at: usize| at as int)
}

/// Where the needle is found.
pub fn find_matches(hay: &[u8], needle: &[u8]) -> (found: Vec<usize>)
    ensures
        as_ints(found@) == matches_from(hay@, needle@, 0),
        needle@.len() == 0 ==> found@.len() == 0,
{
    let mut found: Vec<usize> = Vec::new();
    let total: usize = hay.len();
    let n: usize = needle.len();
    if n == 0 {
        assert(as_ints(found@) =~= Seq::empty());
        return found;
    }
    let mut from: usize = 0;
    assert(as_ints(found@) + matches_from(hay@, needle@, 0) =~= matches_from(hay@, needle@, 0));
    while from <= total && n <= total - from
        invariant
            0 < n == needle@.len(),
            total == hay@.len(),
            from <= total,
            as_ints(found@) + matches_from(hay@, needle@, from as int) == matches_from(
                hay@,
                needle@,
                0,
            ),
        decreases total - from,
    {
        if stands_at(hay, needle, from) {
            let ghost before = found@;
            found.push(from);
            proof {
                let rest = matches_from(hay@, needle@, from + n);
                assert(as_ints(found@) =~= as_ints(before).push(from as int));
                assert(as_ints(found@) + rest =~= as_ints(before) + (seq![from as int] + rest));
            }
            from = from + n;
        } else {
            from = from + 1;
        }
    }
    assert(as_ints(found@) + Seq::<int>::empty() =~= as_ints(found@));
    found
}

} // verus!
