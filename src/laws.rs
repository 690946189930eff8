//! Laws of the detector's model, proved over its abstract state.

use vstd::prelude::*;

use crate::model::{column_total, lemma_column_total_entry, zeros, DetectorState};

verus! {

/// Conservation: in every well-formed state (and every state the detector
/// reaches is one), the free units of a resource and the units threads hold
/// add up to the units registered for it.
pub proof fn lemma_conservation(s: DetectorState, r: int)
    requires
        s.inv(),
        0 <= r < s.available.len(),
    ensures
        s.available[r] + column_total(s.allocation, r, s.allocation.len() as int) == s.total[r],
{
}

/// Round trip: when a unit of `r` is free, thread `t` taking one unit and
/// giving it back, any number of times in strict alternation, restores the
/// state exactly, `available[r]` and `allocation[t][r]` included.
pub proof fn lemma_acquire_release_round_trip(s: DetectorState, r: int, t: int, k: nat)
    requires
        s.inv(),
        0 <= r < s.available.len(),
        0 <= t < s.need.len(),
        s.available[r] > 0,
    ensures
        s.cycled(r, t, k) == s,
    decreases k,
{
    if k > 0 {
        let s1 = s.after_acquire(r, t);
        let s2 = s1.after_release(r, t);
        lemma_column_total_entry(s.allocation, t, r, s.allocation.len() as int);
        assert(s.total[r] <= usize::MAX);
        assert(s.allocation[t].len() == s.available.len());
        assert(s2.available =~= s.available);
        assert(s2.allocation[t] =~= s.allocation[t]);
        assert(s2.allocation =~= s.allocation);
        assert(s2 == s);
        lemma_acquire_release_round_trip(s, r, t, (k - 1) as nat);
    }
}

/// Determinism: the verdict of the safety check depends on the flag and the
/// three matrices alone, so the same contents and the same query always give
/// the same answer.
pub proof fn lemma_verdict_deterministic(a: DetectorState, b: DetectorState, t: int, r: int)
    requires
        a.enabled == b.enabled,
        a.available == b.available,
        a.allocation == b.allocation,
        a.need == b.need,
    ensures
        a.verdict(t, r) == b.verdict(t, r),
{
}

/// With the check off, every request is allowed, whatever the matrices hold.
pub proof fn lemma_disabled_allows_all(s: DetectorState, t: int, r: int)
    requires
        !s.enabled,
    ensures
        s.verdict(t, r),
{
}

/// Growth keeps the shape: registering a resource appends one entry equal to
/// its unit count to `available` and exactly one zero column to every existing
/// row of both matrices; registering the next thread appends one zero row, as
/// wide as the number of resources, to each matrix.
pub proof fn lemma_growth_preserves_shape(s: DetectorState, num: usize)
    requires
        s.inv(),
    ensures
        s.with_resource(num).available == s.available.push(num),
        forall|t: int|
            0 <= t < s.allocation.len() ==> {
                let row = #[trigger] s.with_resource(num).allocation[t];
                &&& row.len() == s.allocation[t].len() + 1
                &&& row.last() == 0
                &&& row.drop_last() == s.allocation[t]
            },
        forall|t: int|
            0 <= t < s.need.len() ==> {
                let row = #[trigger] s.with_resource(num).need[t];
                &&& row.len() == s.need[t].len() + 1
                &&& row.last() == 0
                &&& row.drop_last() == s.need[t]
            },
        s.with_resource(num).allocation.len() == s.allocation.len(),
        s.with_resource(num).need.len() == s.need.len(),
        s.with_thread(s.need.len() as int).allocation == s.allocation.push(zeros(s.available.len())),
        s.with_thread(s.need.len() as int).need == s.need.push(zeros(s.available.len())),
        s.with_thread(s.need.len() as int).available == s.available,
{
    let g = s.with_resource(num);
    assert forall|t: int| 0 <= t < s.allocation.len() implies #[trigger] g.allocation[t].drop_last()
        == s.allocation[t] by {
        assert(g.allocation[t].drop_last() =~= s.allocation[t]);
    }
    assert forall|t: int| 0 <= t < s.need.len() implies #[trigger] g.need[t].drop_last()
        == s.need[t] by {
        assert(g.need[t].drop_last() =~= s.need[t]);
    }
    let h = s.with_thread(s.need.len() as int);
    assert(h.allocation =~= s.allocation.push(zeros(s.available.len())));
    assert(h.need =~= s.need.push(zeros(s.available.len())));
}

} // verus!
