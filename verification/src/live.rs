//! The model of the live allocations of a heap: a map from the start of each
//! allocation to its size, and how it tiles the address space together with
//! the free ranges.

use crate::model::{span, RangeSetView};
use vstd::prelude::*;

verus! {

/// Whether slot `s` lies in one of the allocations of `live`.
pub open spec fn covers(live: Map<int, int>, s: int) -> bool {
    exists|a: int| #[trigger] live.contains_key(a) && a <= s < a + live[a]
}

/// The slots that lie in the allocations of `live`.
pub open spec fn live_slots(live: Map<int, int>) -> Set<int> {
    Set::new(|s: int| covers(live, s))
}

/// Each allocation holds at least one slot, and no two of them overlap.
pub open spec fn apart(live: Map<int, int>) -> bool {
    &&& forall|a: int| #[trigger] live.contains_key(a) ==> 0 <= a && 0 < live[a]
    &&& forall|a: int, b: int|
        #[trigger] live.contains_key(a) && #[trigger] live.contains_key(b) && a < b ==> a
            + live[a] <= b
}

/// The allocations of `live` do not overlap, and their slots are the slots
/// of the address space that lie in no free range.
pub open spec fn tiles(live: Map<int, int>, space: RangeSetView) -> bool {
    &&& apart(live)
    &&& live_slots(live) == space.allocated()
}

/// A new allocation on slots that no allocation holds adds these slots.
pub proof fn lemma_insert_live(live: Map<int, int>, p: int, n: int)
    requires
        apart(live),
        0 <= p,
        0 < n,
        live_slots(live).disjoint(span(p, n)),
    ensures
        !live.contains_key(p),
        apart(live.insert(p, n)),
        live_slots(live.insert(p, n)) == live_slots(live).union(span(p, n)),
{
    let after = live.insert(p, n);
    assert forall|a: int| #[trigger] live.contains_key(a) implies a + live[a] <= p || p + n
        <= a by {
        if a + live[a] > p && p + n > a {
            let s = if a < p {
                p
            } else {
                a
            };
            assert(covers(live, s));
            assert(live_slots(live).contains(s) && span(p, n).contains(s));
        }
    }
    assert forall|s: int| covers(after, s) <==> covers(live, s) || span(p, n).contains(s) by {
        if covers(after, s) {
            let a = choose|a: int| #[trigger] after.contains_key(a) && a <= s < a + after[a];
            if a != p {
                assert(live.contains_key(a));
            }
        }
        if covers(live, s) {
            let a = choose|a: int| #[trigger] live.contains_key(a) && a <= s < a + live[a];
            assert(after.contains_key(a));
        }
        if span(p, n).contains(s) {
            assert(after.contains_key(p));
        }
    }
    assert(live_slots(after) =~= live_slots(live).union(span(p, n)));
}

/// Dropping an allocation takes its slots away and no others.
pub proof fn lemma_remove_live(live: Map<int, int>, p: int)
    requires
        apart(live),
        live.contains_key(p),
    ensures
        apart(live.remove(p)),
        span(p, live[p]).subset_of(live_slots(live)),
        live_slots(live.remove(p)) == live_slots(live).difference(span(p, live[p])),
{
    let after = live.remove(p);
    assert forall|s: int| covers(after, s) <==> covers(live, s) && !span(p, live[p]).contains(
        s,
    ) by {
        if covers(after, s) {
            let a = choose|a: int| #[trigger] after.contains_key(a) && a <= s < a + after[a];
            assert(live.contains_key(a));
            if a < p {
                assert(a + live[a] <= p);
            } else {
                assert(p + live[p] <= a);
            }
        }
        if covers(live, s) {
            let a = choose|a: int| #[trigger] live.contains_key(a) && a <= s < a + live[a];
            if a != p {
                assert(after.contains_key(a));
            }
        }
    }
    assert(live_slots(after) =~= live_slots(live).difference(span(p, live[p])));
    assert forall|s: int| span(p, live[p]).contains(s) implies live_slots(live).contains(s) by {
        assert(live.contains_key(p));
    }
}

} // verus!
