//! The detector: its matrices, the accounting operations and the safety check.

use vstd::prelude::*;

use crate::model::{
    column_total, fits, free_after, lemma_column_total_entry, lemma_column_total_ext,
    lemma_column_total_one_row, lemma_column_total_zero_tail, lemma_held_by_le_total,
    lemma_held_by_mark, lemma_held_by_mono, lemma_held_by_none, lemma_num_done_bound,
    lemma_num_done_mark, num_done, safe_with_request, stuck_beyond, want, zero_rows, zeros,
    DetectorState,
};

verus! {

/// Resource accounting for one class of locks of one process.
///
/// Resource and thread identifiers are dense indices that are never reused:
/// the tables only grow.
pub struct DeadLockDetector {
    /// Whether the safety check runs; when it does not, every request is allowed.
    enable: bool,
    /// Units of each resource not held by any thread.
    available: Vec<usize>,
    /// `allocation[t][r]`: units of resource `r` held by thread `t`.
    allocation: Vec<Vec<usize>>,
    /// `need[t][r]`: units of resource `r` that thread `t` waits for.
    need: Vec<Vec<usize>>,
    /// Units of each resource ever registered.
    total: Ghost<Seq<int>>,
}

impl View for DeadLockDetector {
    type V = DetectorState;

    closed spec fn view(&self) -> DetectorState {
        DetectorState {
            enabled: self.enable,
            available: self.available@,
            allocation: self.allocation@.map_values(|row: Vec<usize>| row@),
            need: self.need@.map_values(|row: Vec<usize>| row@),
            total: self.total@,
        }
    }
}

impl DeadLockDetector {
    /// A detector with detection off, no resources, and one thread (the
    /// process's main thread, which is not registered through `set_tid`).
    pub fn new() -> (r: Self)
        ensures
            r@.inv(),
            !r@.enabled,
            r@.available == Seq::<usize>::empty(),
            r@.allocation == seq![Seq::<usize>::empty()],
            r@.need == seq![Seq::<usize>::empty()],
            r@.total == Seq::<int>::empty(),
    {
        let mut allocation: Vec<Vec<usize>> = Vec::new();
        allocation.push(Vec::new());
        let mut need: Vec<Vec<usize>> = Vec::new();
        need.push(Vec::new());
        let ret = Self {
            enable: false,
            available: Vec::new(),
            allocation,
            need,
            total: Ghost(Seq::empty()),
        };
        proof {
            assert(ret@.allocation =~= seq![Seq::<usize>::empty()]);
            assert(ret@.need =~= seq![Seq::<usize>::empty()]);
        }
        ret
    }
}

/// Row `i` of `need`, with the request under examination, fits within `work`.
spec fn fits_in(need: Seq<Seq<usize>>, req_t: int, req_r: int, work: Seq<usize>, i: int) -> bool {
    forall|j: int| 0 <= j < work.len() ==> #[trigger] want(need, req_t, req_r, i, j) <= work[j]
}

/// Adds `row` into `work`, element by element.
fn add_row(work: &mut Vec<usize>, row: &Vec<usize>)
    requires
        old(work).len() == row.len(),
        forall|j: int| 0 <= j < row.len() ==> old(work)@[j] + row@[j] <= usize::MAX,
    ensures
        final(work).len() == row.len(),
        forall|j: int| 0 <= j < row.len() ==> final(work)@[j] == old(work)@[j] + row@[j],
{
    let ghost start = work@;
    let mut j: usize = 0;
    while j < row.len()
        invariant
            j <= row.len(),
            work.len() == row.len(),
            start.len() == row.len(),
            forall|k: int| 0 <= k < row.len() ==> start[k] + row@[k] <= usize::MAX,
            forall|k: int| 0 <= k < j ==> work@[k] == start[k] + row@[k],
            forall|k: int| j <= k < row.len() ==> work@[k] == start[k],
        decreases row.len() - j,
    {
        assert(work@[j as int] == start[j as int]);
        let sum = work[j] + row[j];
        work.set(j, sum);
        j += 1;
    }
}

impl DeadLockDetector {
    /// Whether thread `i`'s pending want, with the request under examination,
    /// fits within `work`.
    fn row_fits(&self, i: usize, work: &Vec<usize>, tid: usize, res_id: usize) -> (r: bool)
        requires
            self@.inv(),
            i < self@.need.len(),
            work.len() == self@.available.len(),
        ensures
            r == fits_in(self@.need, tid as int, res_id as int, work@, i as int),
    {
        let row = &self.need[i];
        assert(self@.need[i as int].len() == self@.available.len());
        let mut j: usize = 0;
        while j < work.len()
            invariant
                j <= work.len(),
                row@ == self@.need[i as int],
                row.len() == work.len(),
                forall|k: int|
                    0 <= k < j ==> #[trigger] want(self@.need, tid as int, res_id as int, i as int, k)
                        <= work@[k],
            decreases work.len() - j,
        {
            let n = row[j];
            let w = work[j];
            let ok = if i == tid && j == res_id {
                n < w
            } else {
                n <= w
            };
            if !ok {
                assert(want(self@.need, tid as int, res_id as int, i as int, j as int) > work@[j as int]);
                return false;
            }
            j += 1;
        }
        true
    }

    /// The lowest-indexed unfinished thread whose want fits within `work`, if any.
    fn first_runnable(&self, work: &Vec<usize>, finish: &Vec<bool>, tid: usize, res_id: usize) -> (r:
        Option<usize>)
        requires
            self@.inv(),
            work.len() == self@.available.len(),
            finish.len() == self@.need.len(),
        ensures
            match r {
                Some(i) => {
                    &&& i < finish.len()
                    &&& !finish@[i as int]
                    &&& fits_in(self@.need, tid as int, res_id as int, work@, i as int)
                    &&& forall|k: int|
                        0 <= k < i && !finish@[k] ==> !#[trigger] fits_in(
                            self@.need,
                            tid as int,
                            res_id as int,
                            work@,
                            k,
                        )
                },
                None => forall|k: int|
                    0 <= k < finish.len() && !finish@[k] ==> !#[trigger] fits_in(
                        self@.need,
                        tid as int,
                        res_id as int,
                        work@,
                        k,
                    ),
            },
    {
        let mut index: usize = 0;
        while index < finish.len()
            invariant
                self@.inv(),
                index <= finish.len(),
                work.len() == self@.available.len(),
                finish.len() == self@.need.len(),
                forall|k: int|
                    0 <= k < index && !finish@[k] ==> !#[trigger] fits_in(
                        self@.need,
                        tid as int,
                        res_id as int,
                        work@,
                        k,
                    ),
            decreases finish.len() - index,
        {
            if !finish[index] && self.row_fits(index, work, tid, res_id) {
                return Some(index);
            }
            index += 1;
        }
        None
    }

    /// Runs the safety check for one more unit of `res_id` to `tid`: threads
    /// are let finish one at a time, always the lowest-indexed one whose want
    /// fits in what is free, until none is left or none fits.
    fn _detect_deadlock(&self, tid: usize, res_id: usize) -> (r: bool)
        requires
            self@.inv(),
            tid < self@.need.len(),
            res_id < self@.available.len(),
        ensures
            r == safe_with_request(
                self@.available,
                self@.allocation,
                self@.need,
                tid as int,
                res_id as int,
            ),
    {
        let ghost s = self@;
        let n = self.need.len();
        let m = self.available.len();
        let mut work: Vec<usize> = Vec::new();
        let mut j: usize = 0;
        while j < m
            invariant
                j <= m,
                m == self.available.len(),
                work@ == self.available@.subrange(0, j as int),
            decreases m - j,
        {
            work.push(self.available[j]);
            j += 1;
        }
        let mut finish: Vec<bool> = Vec::new();
        let mut t: usize = 0;
        while t < n
            invariant
                t <= n,
                finish.len() == t,
                forall|k: int| 0 <= k < t ==> !#[trigger] finish@[k],
            decreases n - t,
        {
            finish.push(false);
            t += 1;
        }
        proof {
            assert forall|jj: int| 0 <= jj < m implies work@[jj] == free_after(
                s.available,
                s.allocation,
                finish@,
                jj,
            ) by {
                lemma_held_by_none(s.allocation, finish@, jj, n as int);
            }
        }
        loop
            invariant
                s == self@,
                s.inv(),
                n == s.need.len(),
                m == s.available.len(),
                tid < n,
                res_id < m,
                work.len() == m,
                finish.len() == n,
                forall|jj: int|
                    0 <= jj < m ==> #[trigger] work@[jj] == free_after(
                        s.available,
                        s.allocation,
                        finish@,
                        jj,
                    ),
                forall|done: Seq<bool>|
                    #[trigger] stuck_beyond(
                        s.available,
                        s.allocation,
                        s.need,
                        tid as int,
                        res_id as int,
                        done,
                    ) ==> forall|k: int| 0 <= k < n && finish@[k] ==> done[k],
            ensures
                forall|k: int|
                    0 <= k < n && !finish@[k] ==> !#[trigger] fits(
                        s.available,
                        s.allocation,
                        s.need,
                        tid as int,
                        res_id as int,
                        finish@,
                        k,
                    ),
            decreases n - num_done(finish@),
        {
            match self.first_runnable(&work, &finish, tid, res_id) {
                Some(i) => {
                    let ghost f0 = finish@;
                    let ghost f1 = f0.update(i as int, true);
                    proof {
                        lemma_num_done_mark(f0, i as int);
                        lemma_num_done_bound(f1);
                        assert forall|jj: int| 0 <= jj < m implies work@[jj]
                            + s.allocation[i as int][jj] == free_after(
                            s.available,
                            s.allocation,
                            f1,
                            jj,
                        ) && free_after(s.available, s.allocation, f1, jj) <= usize::MAX by {
                            lemma_held_by_mark(s.allocation, f0, i as int, jj, n as int);
                            lemma_held_by_le_total(s.allocation, f1, jj, n as int);
                            assert(s.total[jj] <= usize::MAX);
                        }
                        assert forall|done: Seq<bool>|
                            #[trigger] stuck_beyond(
                                s.available,
                                s.allocation,
                                s.need,
                                tid as int,
                                res_id as int,
                                done,
                            ) implies forall|k: int| 0 <= k < n && f1[k] ==> done[k] by {
                            if !done[i as int] {
                                assert(!fits(
                                    s.available,
                                    s.allocation,
                                    s.need,
                                    tid as int,
                                    res_id as int,
                                    done,
                                    i as int,
                                ));
                                let jj = choose|jj: int|
                                    0 <= jj < m && !(#[trigger] want(
                                        s.need,
                                        tid as int,
                                        res_id as int,
                                        i as int,
                                        jj,
                                    ) <= free_after(s.available, s.allocation, done, jj));
                                lemma_held_by_mono(s.allocation, f0, done, jj, n as int);
                                assert(want(s.need, tid as int, res_id as int, i as int, jj)
                                    <= work@[jj]);
                            }
                        }
                    }
                    let row = &self.allocation[i];
                    assert(row@ == s.allocation[i as int]);
                    assert(row.len() == m);
                    assert forall|jj: int| 0 <= jj < m implies #[trigger] work@[jj] + row@[jj]
                        <= usize::MAX by {
                        assert(free_after(s.available, s.allocation, f1, jj) <= usize::MAX);
                    }
                    add_row(&mut work, row);
                    finish.set(i, true);
                    proof {
                        assert(finish@ == f1);
                    }
                },
                None => {
                    proof {
                        assert forall|k: int|
                            0 <= k < n && !finish@[k] implies !#[trigger] fits(
                            s.available,
                            s.allocation,
                            s.need,
                            tid as int,
                            res_id as int,
                            finish@,
                            k,
                        ) by {
                            assert(!fits_in(s.need, tid as int, res_id as int, work@, k));
                        }
                    }
                    break ;
                },
            }
        }
        let mut t: usize = 0;
        while t < n
            invariant
                s == self@,
                t <= n,
                n == s.need.len(),
                finish.len() == n,
                forall|k: int| 0 <= k < t ==> finish@[k],
                forall|k: int|
                    0 <= k < n && !finish@[k] ==> !#[trigger] fits(
                        s.available,
                        s.allocation,
                        s.need,
                        tid as int,
                        res_id as int,
                        finish@,
                        k,
                    ),
                forall|done: Seq<bool>|
                    #[trigger] stuck_beyond(
                        s.available,
                        s.allocation,
                        s.need,
                        tid as int,
                        res_id as int,
                        done,
                    ) ==> forall|k: int| 0 <= k < n && finish@[k] ==> done[k],
            decreases n - t,
        {
            if !finish[t] {
                proof {
                    assert(0 <= t < n && !finish@[t as int]);
                    assert(stuck_beyond(
                        s.available,
                        s.allocation,
                        s.need,
                        tid as int,
                        res_id as int,
                        finish@,
                    ));
                }
                return false;
            }
            t += 1;
        }
        proof {
            assert forall|done: Seq<bool>|
                !stuck_beyond(
                    s.available,
                    s.allocation,
                    s.need,
                    tid as int,
                    res_id as int,
                    done,
                ) by {
                if stuck_beyond(s.available, s.allocation, s.need, tid as int, res_id as int, done) {
                    let k = choose|k: int| 0 <= k < done.len() && !done[k];
                    assert(finish@[k]);
                }
            }
        }
        true
    }
}

/// A row of `width` zeros.
fn zero_row(width: usize) -> (r: Vec<usize>)
    ensures
        r@ == zeros(width as nat),
{
    let mut v: Vec<usize> = Vec::new();
    while v.len() < width
        invariant
            v.len() <= width,
            v@ == zeros(v.len() as nat),
        decreases width - v.len(),
    {
        v.push(0);
        proof {
            assert(v@ =~= zeros(v.len() as nat));
        }
    }
    v
}

impl DeadLockDetector {
    /// Registers thread `tid`: appends zero rows, as wide as the number of
    /// resources, to both matrices until row `tid` exists. Does nothing when it
    /// already does.
    pub fn set_tid(&mut self, tid: usize)
        requires
            old(self)@.inv(),
        ensures
            final(self)@ == old(self)@.with_thread(tid as int),
            final(self)@.inv(),
    {
        let ghost s0 = self@;
        let m = self.available.len();
        while self.need.len() <= tid
            invariant
                s0.inv(),
                m == s0.available.len(),
                self.enable == s0.enabled,
                self.available@ == s0.available,
                self.total@ == s0.total,
                s0.need.len() <= self.need.len(),
                self.need.len() == s0.need.len() || self.need.len() <= tid + 1,
                self.need.len() == self.allocation.len(),
                self@.need == s0.need + zero_rows(self.need.len() - s0.need.len(), m as nat),
                self@.allocation == s0.allocation + zero_rows(
                    self.allocation.len() - s0.allocation.len(),
                    m as nat,
                ),
            decreases tid + 1 - self.need.len(),
        {
            let v = zero_row(m);
            let v2 = zero_row(m);
            let ghost prev = self@;
            self.need.push(v);
            self.allocation.push(v2);
            proof {
                assert(self@.need =~= prev.need.push(zeros(m as nat)));
                assert(self@.allocation =~= prev.allocation.push(zeros(m as nat)));
                assert(self@.need =~= s0.need + zero_rows(self.need.len() - s0.need.len(), m as nat));
                assert(self@.allocation =~= s0.allocation + zero_rows(
                    self.allocation.len() - s0.allocation.len(),
                    m as nat,
                ));
            }
        }
        proof {
            let s1 = self@;
            if tid < s0.need.len() {
                assert(zero_rows(0, m as nat) =~= Seq::<Seq<usize>>::empty());
                assert(s1.need =~= s0.need);
                assert(s1.allocation =~= s0.allocation);
            }
            assert forall|r: int| 0 <= r < s1.available.len() implies #[trigger] s1.total[r]
                <= usize::MAX && s1.available[r] + column_total(
                s1.allocation,
                r,
                s1.allocation.len() as int,
            ) == s1.total[r] by {
                let n0 = s0.allocation.len() as int;
                lemma_column_total_ext(s0.allocation, s1.allocation, r, n0);
                lemma_column_total_zero_tail(s1.allocation, r, n0, s1.allocation.len() as int);
            }
        }
    }

    /// Registers a new resource of `num` units and returns its index, which is
    /// always the number of resources registered before. `res_id` is the index
    /// the caller expects; it is not consulted.
    pub fn update_available(&mut self, res_id: usize, num: usize) -> (r: usize)
        requires
            old(self)@.inv(),
        ensures
            r == old(self)@.available.len(),
            final(self)@ == old(self)@.with_resource(num),
            final(self)@.inv(),
    {
        let ghost s0 = self@;
        let r = self.available.len();
        self.available.push(num);
        self.total = Ghost(self.total@.push(num as int));
        let n = self.need.len();
        let mut i: usize = 0;
        while i < n
            invariant
                s0.inv(),
                i <= n,
                n == s0.need.len(),
                r == s0.available.len(),
                self.enable == s0.enabled,
                self.available@ == s0.available.push(num),
                self.total@ == s0.total.push(num as int),
                self.need.len() == n,
                self.allocation.len() == n,
                forall|k: int| 0 <= k < i ==> #[trigger] self@.need[k] == s0.need[k].push(0usize),
                forall|k: int| i <= k < n ==> #[trigger] self@.need[k] == s0.need[k],
                forall|k: int|
                    0 <= k < i ==> #[trigger] self@.allocation[k] == s0.allocation[k].push(0usize),
                forall|k: int| i <= k < n ==> #[trigger] self@.allocation[k] == s0.allocation[k],
            decreases n - i,
        {
            let ghost prev = self@;
            self.need[i].push(0);
            self.allocation[i].push(0);
            proof {
                assert(self@.need =~= prev.need.update(i as int, prev.need[i as int].push(0usize)));
                assert(self@.allocation =~= prev.allocation.update(
                    i as int,
                    prev.allocation[i as int].push(0usize),
                ));
            }
            i += 1;
        }
        proof {
            let s1 = self@;
            let s2 = s0.with_resource(num);
            assert(s1.need =~= s2.need);
            assert(s1.allocation =~= s2.allocation);
            assert forall|c: int| 0 <= c < s1.available.len() implies #[trigger] s1.total[c]
                <= usize::MAX && s1.available[c] + column_total(
                s1.allocation,
                c,
                s1.allocation.len() as int,
            ) == s1.total[c] by {
                if c < r {
                    lemma_column_total_ext(s0.allocation, s1.allocation, c, n as int);
                } else {
                    assert forall|t: int| 0 <= t < n implies #[trigger] s1.allocation[t][c] == 0 by {
                        assert(s0.allocation[t].len() == r);
                    }
                    lemma_column_total_zero_tail(s1.allocation, c, 0, n as int);
                }
            }
        }
        r
    }
}

impl DeadLockDetector {
    /// Accounts for thread `tid` asking for one unit of resource `res_id`: a
    /// free unit is handed over at once; when none is free the request is
    /// recorded as pending in `need`.
    pub fn aquire_one(&mut self, res_id: usize, tid: usize)
        requires
            old(self)@.inv(),
            res_id < old(self)@.available.len(),
            tid < old(self)@.need.len(),
            old(self)@.available[res_id as int] == 0 ==> old(self)@.need[tid as int][res_id as int]
                < usize::MAX,
        ensures
            final(self)@ == old(self)@.after_acquire(res_id as int, tid as int),
            final(self)@.inv(),
    {
        let ghost s0 = self@;
        if self.available[res_id] != 0 {
            proof {
                assert(s0.allocation[tid as int].len() == s0.available.len());
                assert(s0.total[res_id as int] <= usize::MAX);
                lemma_column_total_entry(
                    s0.allocation,
                    tid as int,
                    res_id as int,
                    s0.allocation.len() as int,
                );
            }
            let a = self.available[res_id] - 1;
            self.available.set(res_id, a);
            let h = self.allocation[tid][res_id];
            self.allocation[tid].set(res_id, h + 1);
            proof {
                let s1 = self@;
                let s2 = s0.after_acquire(res_id as int, tid as int);
                assert(s1.allocation =~= s2.allocation);
                assert(s1.need =~= s2.need);
                lemma_bump_keeps_inv(s0, s1, res_id as int, tid as int);
            }
        } else {
            proof {
                assert(s0.need[tid as int].len() == s0.available.len());
            }
            let w = self.need[tid][res_id];
            self.need[tid].set(res_id, w + 1);
            proof {
                let s1 = self@;
                let s2 = s0.after_acquire(res_id as int, tid as int);
                assert(s1.allocation =~= s2.allocation);
                assert(s1.need =~= s2.need);
                lemma_bump_keeps_inv(s0, s1, res_id as int, tid as int);
            }
        }
    }

    /// Accounts for thread `tid` giving back one unit of resource `res_id`,
    /// which it holds.
    pub fn release_one(&mut self, res_id: usize, tid: usize)
        requires
            old(self)@.inv(),
            res_id < old(self)@.available.len(),
            tid < old(self)@.need.len(),
            old(self)@.allocation[tid as int][res_id as int] > 0,
        ensures
            final(self)@ == old(self)@.after_release(res_id as int, tid as int),
            final(self)@.inv(),
    {
        let ghost s0 = self@;
        proof {
            assert(s0.allocation[tid as int].len() == s0.available.len());
            assert(s0.total[res_id as int] <= usize::MAX);
            lemma_column_total_entry(
                s0.allocation,
                tid as int,
                res_id as int,
                s0.allocation.len() as int,
            );
        }
        let a = self.available[res_id] + 1;
        self.available.set(res_id, a);
        let h = self.allocation[tid][res_id];
        self.allocation[tid].set(res_id, h - 1);
        proof {
            let s1 = self@;
            let s2 = s0.after_release(res_id as int, tid as int);
            assert(s1.allocation =~= s2.allocation);
            assert(s1.need =~= s2.need);
            lemma_bump_keeps_inv(s0, s1, res_id as int, tid as int);
        }
    }

    /// Turns the safety check on or off for the calls that follow.
    pub fn set_enable(&mut self, enable: bool)
        requires
            old(self)@.inv(),
        ensures
            final(self)@ == (DetectorState { enabled: enable, ..old(self)@ }),
            final(self)@.inv(),
    {
        self.enable = enable;
    }

    /// Whether one more unit of `res_id` may be granted to `tid`. Always true
    /// while detection is off; otherwise true exactly when the state with that
    /// unit added to `need[tid][res_id]` is safe. The detector is left as it was.
    pub fn detect_deadlock(&mut self, tid: usize, res_id: usize) -> (r: bool)
        requires
            old(self)@.inv(),
            tid < old(self)@.need.len(),
            res_id < old(self)@.available.len(),
        ensures
            *final(self) == *old(self),
            r == old(self)@.verdict(tid as int, res_id as int),
            !old(self)@.enabled ==> r,
    {
        if self.enable {
            self._detect_deadlock(tid, res_id)
        } else {
            true
        }
    }
}

impl DeadLockDetector {
    /// Accounts for a pending request of thread `tid` for resource `res_id`
    /// being granted after it waited: one free unit moves to the thread and
    /// one unit of its pending want is cleared. A caller that wakes a waiter
    /// and hands it a unit (for instance one just given back through
    /// `release_one`) records the grant with this call, so that `need` holds
    /// only requests still outstanding.
    pub fn fulfill_one(&mut self, res_id: usize, tid: usize)
        requires
            old(self)@.inv(),
            res_id < old(self)@.available.len(),
            tid < old(self)@.need.len(),
            old(self)@.available[res_id as int] > 0,
            old(self)@.need[tid as int][res_id as int] > 0,
        ensures
            final(self)@ == old(self)@.after_fulfill(res_id as int, tid as int),
            final(self)@.inv(),
    {
        let ghost s0 = self@;
        proof {
            assert(s0.allocation[tid as int].len() == s0.available.len());
            assert(s0.need[tid as int].len() == s0.available.len());
            assert(s0.total[res_id as int] <= usize::MAX);
            lemma_column_total_entry(
                s0.allocation,
                tid as int,
                res_id as int,
                s0.allocation.len() as int,
            );
        }
        let a = self.available[res_id] - 1;
        self.available.set(res_id, a);
        let h = self.allocation[tid][res_id];
        self.allocation[tid].set(res_id, h + 1);
        let w = self.need[tid][res_id];
        self.need[tid].set(res_id, w - 1);
        proof {
            let s1 = self@;
            let s2 = s0.after_fulfill(res_id as int, tid as int);
            assert(s1.allocation =~= s2.allocation);
            assert(s1.need =~= s2.need);
            lemma_bump_keeps_inv(s0, s1, res_id as int, tid as int);
        }
    }
}

impl DeadLockDetector {
    /// Whether the safety check runs.
    pub fn is_enabled(&self) -> (r: bool)
        ensures
            r == self@.enabled,
    {
        self.enable
    }

    /// Number of registered resources.
    pub fn num_resources(&self) -> (r: usize)
        ensures
            r == self@.available.len(),
    {
        self.available.len()
    }

    /// Number of registered threads.
    pub fn num_threads(&self) -> (r: usize)
        ensures
            r == self@.need.len(),
    {
        self.need.len()
    }

    /// Free units of resource `res_id`.
    pub fn available_of(&self, res_id: usize) -> (r: usize)
        requires
            res_id < self@.available.len(),
        ensures
            r == self@.available[res_id as int],
    {
        self.available[res_id]
    }

    /// Units of resource `res_id` held by thread `tid`.
    pub fn allocation_of(&self, tid: usize, res_id: usize) -> (r: usize)
        requires
            self@.inv(),
            tid < self@.need.len(),
            res_id < self@.available.len(),
        ensures
            r == self@.allocation[tid as int][res_id as int],
    {
        proof {
            assert(self@.allocation[tid as int].len() == self@.available.len());
        }
        self.allocation[tid][res_id]
    }

    /// Units of resource `res_id` that thread `tid` waits for.
    pub fn need_of(&self, tid: usize, res_id: usize) -> (r: usize)
        requires
            self@.inv(),
            tid < self@.need.len(),
            res_id < self@.available.len(),
        ensures
            r == self@.need[tid as int][res_id as int],
    {
        proof {
            assert(self@.need[tid as int].len() == self@.available.len());
        }
        self.need[tid][res_id]
    }
}

/// A change of one matrix entry, with `available` and the totals kept
/// consistent with it, preserves the invariant.
proof fn lemma_bump_keeps_inv(s0: DetectorState, s1: DetectorState, r: int, t: int)
    requires
        s0.inv(),
        0 <= r < s0.available.len(),
        0 <= t < s0.need.len(),
        s1.total == s0.total,
        s1.available.len() == s0.available.len(),
        s1.allocation.len() == s0.allocation.len(),
        s1.need.len() == s0.need.len(),
        forall|u: int| 0 <= u < s1.allocation.len() ==> #[trigger] s1.allocation[u].len() == s0.allocation[u].len(),
        forall|u: int| 0 <= u < s1.need.len() ==> #[trigger] s1.need[u].len() == s0.need[u].len(),
        forall|u: int, c: int|
            0 <= u < s1.allocation.len() && 0 <= c < s1.available.len() && (u != t || c != r)
                ==> #[trigger] s1.allocation[u][c] == s0.allocation[u][c],
        forall|c: int| 0 <= c < s1.available.len() && c != r ==> #[trigger] s1.available[c] == s0.available[c],
        s1.available[r] + s1.allocation[t][r] == s0.available[r] + s0.allocation[t][r],
    ensures
        s1.inv(),
{
    let n = s0.allocation.len() as int;
    assert forall|c: int| 0 <= c < s1.available.len() implies #[trigger] s1.total[c] <= usize::MAX
        && s1.available[c] + column_total(s1.allocation, c, n) == s1.total[c] by {
        if c == r {
            lemma_column_total_one_row(s0.allocation, s1.allocation, t, c, n);
        } else {
            lemma_column_total_ext(s0.allocation, s1.allocation, c, n);
        }
    }
}

} // verus!
