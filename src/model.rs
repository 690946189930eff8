//! The mathematical model of a detector: its abstract state, column sums over
//! the allocation matrix, and the safety predicate that the check decides.

use vstd::prelude::*;

verus! {

/// The abstract state of a detector.
pub ghost struct DetectorState {
    /// Whether the safety check runs at all.
    pub enabled: bool,
    /// Units of each resource held by no thread.
    pub available: Seq<usize>,
    /// `allocation[t][r]`: units of resource `r` held by thread `t`.
    pub allocation: Seq<Seq<usize>>,
    /// `need[t][r]`: units of resource `r` that thread `t` waits for.
    pub need: Seq<Seq<usize>>,
    /// Units of each resource ever registered.
    pub total: Seq<int>,
}

/// Units of resource `j` held by threads `0 .. n`.
pub open spec fn column_total(alloc: Seq<Seq<usize>>, j: int, n: int) -> int
    decreases n,
{
    if n <= 0 {
        0
    } else {
        column_total(alloc, j, n - 1) + alloc[n - 1][j]
    }
}

/// Units of resource `j` held by those of the threads `0 .. n` that `done` marks.
pub open spec fn held_by(alloc: Seq<Seq<usize>>, done: Seq<bool>, j: int, n: int) -> int
    decreases n,
{
    if n <= 0 {
        0
    } else {
        held_by(alloc, done, j, n - 1) + if done[n - 1] {
            alloc[n - 1][j] as int
        } else {
            0
        }
    }
}

/// Units of resource `j` that would be free once every thread marked in
/// `done` had run to completion and released what it holds.
pub open spec fn free_after(
    avail: Seq<usize>,
    alloc: Seq<Seq<usize>>,
    done: Seq<bool>,
    j: int,
) -> int {
    avail[j] + held_by(alloc, done, j, alloc.len() as int)
}

/// What thread `i` waits for of resource `j`, counting one more unit of
/// resource `req_r` for thread `req_t` (the request under examination).
pub open spec fn want(need: Seq<Seq<usize>>, req_t: int, req_r: int, i: int, j: int) -> int {
    need[i][j] + if i == req_t && j == req_r {
        1int
    } else {
        0
    }
}

/// Thread `i` could run to completion once the threads marked in `done` have.
pub open spec fn fits(
    avail: Seq<usize>,
    alloc: Seq<Seq<usize>>,
    need: Seq<Seq<usize>>,
    req_t: int,
    req_r: int,
    done: Seq<bool>,
    i: int,
) -> bool {
    forall|j: int|
        0 <= j < avail.len() ==> #[trigger] want(need, req_t, req_r, i, j) <= free_after(
            avail,
            alloc,
            done,
            j,
        )
}

/// The threads not marked in `done` form a nonempty group that is stuck: even
/// after every marked thread has finished, each of them waits for more than is free.
pub open spec fn stuck_beyond(
    avail: Seq<usize>,
    alloc: Seq<Seq<usize>>,
    need: Seq<Seq<usize>>,
    req_t: int,
    req_r: int,
    done: Seq<bool>,
) -> bool {
    &&& done.len() == need.len()
    &&& exists|i: int| 0 <= i < done.len() && !done[i]
    &&& forall|i: int|
        0 <= i < done.len() && !done[i] ==> !#[trigger] fits(
            avail,
            alloc,
            need,
            req_t,
            req_r,
            done,
            i,
        )
}

/// Granting one more unit of `req_r` to `req_t` leaves the state safe: no
/// group of threads is stuck, so every thread can run to completion in some order.
pub open spec fn safe_with_request(
    avail: Seq<usize>,
    alloc: Seq<Seq<usize>>,
    need: Seq<Seq<usize>>,
    req_t: int,
    req_r: int,
) -> bool {
    !exists|done: Seq<bool>| stuck_beyond(avail, alloc, need, req_t, req_r, done)
}

/// Number of marked entries.
pub open spec fn num_done(done: Seq<bool>) -> nat
    decreases done.len(),
{
    if done.len() == 0 {
        0
    } else {
        num_done(done.drop_last()) + if done.last() {
            1nat
        } else {
            0
        }
    }
}

/// No more entries are marked than there are.
pub proof fn lemma_num_done_bound(done: Seq<bool>)
    ensures
        num_done(done) <= done.len(),
    decreases done.len(),
{
    if done.len() > 0 {
        lemma_num_done_bound(done.drop_last());
    }
}

/// Marking an unmarked entry adds one to the count.
pub proof fn lemma_num_done_mark(done: Seq<bool>, i: int)
    requires
        0 <= i < done.len(),
        !done[i],
    ensures
        num_done(done.update(i, true)) == num_done(done) + 1,
    decreases done.len(),
{
    let d2 = done.update(i, true);
    if i < done.len() - 1 {
        assert(d2.drop_last() =~= done.drop_last().update(i, true));
        lemma_num_done_mark(done.drop_last(), i);
    } else {
        assert(d2.drop_last() =~= done.drop_last());
    }
}

/// Marking more threads never frees less.
pub proof fn lemma_held_by_mono(alloc: Seq<Seq<usize>>, a: Seq<bool>, b: Seq<bool>, j: int, n: int)
    requires
        n <= a.len(),
        n <= b.len(),
        forall|t: int| 0 <= t < n && #[trigger] a[t] ==> b[t],
    ensures
        held_by(alloc, a, j, n) <= held_by(alloc, b, j, n),
    decreases n,
{
    if n > 0 {
        lemma_held_by_mono(alloc, a, b, j, n - 1);
    }
}

/// Marking thread `i` adds what it holds.
pub proof fn lemma_held_by_mark(alloc: Seq<Seq<usize>>, done: Seq<bool>, i: int, j: int, n: int)
    requires
        0 <= i < done.len(),
        n <= done.len(),
        !done[i],
    ensures
        held_by(alloc, done.update(i, true), j, n) == held_by(alloc, done, j, n) + if i < n {
            alloc[i][j] as int
        } else {
            0
        },
    decreases n,
{
    if n > 0 {
        lemma_held_by_mark(alloc, done, i, j, n - 1);
    }
}

/// What a group holds never exceeds what all threads hold.
pub proof fn lemma_held_by_le_total(alloc: Seq<Seq<usize>>, done: Seq<bool>, j: int, n: int)
    ensures
        held_by(alloc, done, j, n) <= column_total(alloc, j, n),
    decreases n,
{
    if n > 0 {
        lemma_held_by_le_total(alloc, done, j, n - 1);
    }
}

/// With nothing marked, nothing is held.
pub proof fn lemma_held_by_none(alloc: Seq<Seq<usize>>, done: Seq<bool>, j: int, n: int)
    requires
        n <= done.len(),
        forall|t: int| 0 <= t < n ==> !#[trigger] done[t],
    ensures
        held_by(alloc, done, j, n) == 0,
    decreases n,
{
    if n > 0 {
        lemma_held_by_none(alloc, done, j, n - 1);
    }
}

/// `mat` with entry `[t][r]` moved by `d`.
pub open spec fn bump(mat: Seq<Seq<usize>>, t: int, r: int, d: int) -> Seq<Seq<usize>> {
    mat.update(t, mat[t].update(r, (mat[t][r] + d) as usize))
}

/// A row of `width` zeros.
pub open spec fn zeros(width: nat) -> Seq<usize> {
    Seq::new(width, |j: int| 0usize)
}

/// `count` rows of `width` zeros.
pub open spec fn zero_rows(count: int, width: nat) -> Seq<Seq<usize>> {
    Seq::new(count as nat, |k: int| zeros(width))
}

/// Column totals depend only on the column's entries.
pub proof fn lemma_column_total_ext(a: Seq<Seq<usize>>, b: Seq<Seq<usize>>, j: int, n: int)
    requires
        forall|t: int| 0 <= t < n ==> #[trigger] a[t][j] == b[t][j],
    ensures
        column_total(a, j, n) == column_total(b, j, n),
    decreases n,
{
    if n > 0 {
        lemma_column_total_ext(a, b, j, n - 1);
    }
}

/// Rows that hold no unit of the column add nothing to its total.
pub proof fn lemma_column_total_zero_tail(a: Seq<Seq<usize>>, j: int, n: int, n2: int)
    requires
        0 <= n <= n2,
        forall|t: int| n <= t < n2 ==> #[trigger] a[t][j] == 0,
    ensures
        column_total(a, j, n2) == column_total(a, j, n),
    decreases n2,
{
    if n2 > n {
        lemma_column_total_zero_tail(a, j, n, n2 - 1);
    }
}

/// Moving one entry moves its column's total by as much.
pub proof fn lemma_column_total_one_row(a: Seq<Seq<usize>>, b: Seq<Seq<usize>>, t0: int, j: int, n: int)
    requires
        0 <= t0 < n,
        forall|t: int| 0 <= t < n && t != t0 ==> #[trigger] a[t][j] == b[t][j],
    ensures
        column_total(b, j, n) == column_total(a, j, n) + b[t0][j] - a[t0][j],
    decreases n,
{
    if n - 1 == t0 {
        lemma_column_total_ext(a, b, j, n - 1);
    } else {
        lemma_column_total_one_row(a, b, t0, j, n - 1);
    }
}

/// One entry of a column never exceeds the column's total.
pub proof fn lemma_column_total_entry(a: Seq<Seq<usize>>, t0: int, j: int, n: int)
    requires
        0 <= t0 < n,
    ensures
        a[t0][j] <= column_total(a, j, n),
    decreases n,
{
    if n - 1 > t0 {
        lemma_column_total_entry(a, t0, j, n - 1);
    } else {
        lemma_column_total_nonneg(a, j, n - 1);
    }
}

/// Column totals are never negative.
pub proof fn lemma_column_total_nonneg(a: Seq<Seq<usize>>, j: int, n: int)
    ensures
        column_total(a, j, n) >= 0,
    decreases n,
{
    if n > 0 {
        lemma_column_total_nonneg(a, j, n - 1);
    }
}

impl DetectorState {
    /// The verdict of the safety check on one more unit of `r` for thread `t`.
    pub open spec fn verdict(self, t: int, r: int) -> bool {
        !self.enabled || safe_with_request(self.available, self.allocation, self.need, t, r)
    }

    /// The state after registering a resource of `num` units: a new entry of
    /// `available`, and a zero column appended to every row of both matrices.
    pub open spec fn with_resource(self, num: usize) -> DetectorState {
        DetectorState {
            enabled: self.enabled,
            available: self.available.push(num),
            allocation: self.allocation.map_values(|row: Seq<usize>| row.push(0usize)),
            need: self.need.map_values(|row: Seq<usize>| row.push(0usize)),
            total: self.total.push(num as int),
        }
    }

    /// The state after registering thread `tid`: zero rows, as wide as the
    /// number of resources, up to and including row `tid`.
    pub open spec fn with_thread(self, tid: int) -> DetectorState {
        if tid < self.need.len() {
            self
        } else {
            DetectorState {
                enabled: self.enabled,
                available: self.available,
                allocation: self.allocation + zero_rows(tid + 1 - self.allocation.len(), self.available.len()),
                need: self.need + zero_rows(tid + 1 - self.need.len(), self.available.len()),
                total: self.total,
            }
        }
    }

    /// The state after thread `t` asks for one unit of resource `r`: granted
    /// at once when one is free, else recorded as pending.
    pub open spec fn after_acquire(self, r: int, t: int) -> DetectorState {
        if self.available[r] > 0 {
            DetectorState {
                enabled: self.enabled,
                available: self.available.update(r, (self.available[r] - 1) as usize),
                allocation: bump(self.allocation, t, r, 1),
                need: self.need,
                total: self.total,
            }
        } else {
            DetectorState {
                enabled: self.enabled,
                available: self.available,
                allocation: self.allocation,
                need: bump(self.need, t, r, 1),
                total: self.total,
            }
        }
    }

    /// The state after thread `t` gives back one unit of resource `r`.
    pub open spec fn after_release(self, r: int, t: int) -> DetectorState {
        DetectorState {
            enabled: self.enabled,
            available: self.available.update(r, (self.available[r] + 1) as usize),
            allocation: bump(self.allocation, t, r, -1),
            need: self.need,
            total: self.total,
        }
    }

    /// The state after a pending request of thread `t` for resource `r` is
    /// granted: one free unit moves to the thread and one pending unit is cleared.
    pub open spec fn after_fulfill(self, r: int, t: int) -> DetectorState {
        DetectorState {
            enabled: self.enabled,
            available: self.available.update(r, (self.available[r] - 1) as usize),
            allocation: bump(self.allocation, t, r, 1),
            need: bump(self.need, t, r, -1),
            total: self.total,
        }
    }

    /// `k` rounds of thread `t` taking one unit of `r` and giving it back.
    pub open spec fn cycled(self, r: int, t: int, k: nat) -> DetectorState
        decreases k,
    {
        if k == 0 {
            self
        } else {
            self.after_acquire(r, t).after_release(r, t).cycled(r, t, (k - 1) as nat)
        }
    }

    /// The shape and conservation invariant of every reachable state.
    pub open spec fn inv(self) -> bool {
        &&& self.allocation.len() == self.need.len()
        &&& self.need.len() >= 1
        &&& self.total.len() == self.available.len()
        &&& forall|t: int|
            0 <= t < self.allocation.len() ==> #[trigger] self.allocation[t].len()
                == self.available.len()
        &&& forall|t: int|
            0 <= t < self.need.len() ==> #[trigger] self.need[t].len() == self.available.len()
        &&& forall|r: int|
            0 <= r < self.available.len() ==> #[trigger] self.total[r] <= usize::MAX
                && self.available[r] + column_total(self.allocation, r, self.allocation.len() as int)
                == self.total[r]
    }
}

} // verus!
