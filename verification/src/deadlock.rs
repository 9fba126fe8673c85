//! Deadlock detection over mutexes and semaphores.
//!
//! Each detector keeps, for `m` resources and `n` threads, the vector of
//! available units, the matrix of units allocated to each thread and the
//! matrix of units each thread is waiting for. A state is deadlocked when no
//! order exists in which every thread can get what it waits for from the
//! units available plus those released by the threads that ran before it.
use vstd::prelude::*;

verus! {

/// The abstract state of a detector: `available[j]`, `allocation[i][j]`
/// and `need[i][j]` for thread `i` and resource `j`.
pub struct DetectorState {
    pub available: Seq<usize>,
    pub allocation: Seq<Seq<usize>>,
    pub need: Seq<Seq<usize>>,
}

impl DetectorState {
    /// Number of resources.
    pub open spec fn num_resources(self) -> nat {
        self.available.len()
    }

    /// Number of threads.
    pub open spec fn num_threads(self) -> nat {
        self.allocation.len()
    }

    /// Both matrices have one row per thread and one column per resource.
    pub open spec fn wf(self) -> bool {
        &&& self.need.len() == self.allocation.len()
        &&& forall|i: int|
            0 <= i < self.allocation.len() ==> #[trigger] self.allocation[i].len()
                == self.available.len()
        &&& forall|i: int|
            0 <= i < self.need.len() ==> #[trigger] self.need[i].len() == self.available.len()
    }
}

impl DetectorState {
    /// Units of resource `j` at hand once the threads marked in `done` have
    /// run to completion and released what they hold.
    pub open spec fn work(self, done: Seq<bool>, j: int) -> int {
        self.available[j] + released(self.allocation, done, j, self.num_threads() as int)
    }

    /// Everything thread `i` waits for is at hand once the threads marked in
    /// `done` have finished.
    pub open spec fn can_finish(self, i: int, done: Seq<bool>) -> bool {
        forall|j: int| 0 <= j < self.num_resources() ==> #[trigger] self.need[i][j] <= self.work(done, j)
    }

    /// `s` lists distinct threads, each of which can finish with what is
    /// available plus what the threads before it release.
    pub open spec fn is_finish_order(self, s: Seq<int>) -> bool {
        &&& s.no_duplicates()
        &&& forall|k: int| 0 <= k < s.len() ==> 0 <= #[trigger] s[k] < self.num_threads()
        &&& forall|k: int|
            0 <= k < s.len() ==> #[trigger] self.can_finish(s[k], ran(s.take(k), self.num_threads()))
    }

    /// `s` orders every thread exactly once so that each one can finish with
    /// what is available plus what the threads before it release.
    pub open spec fn is_safe_sequence(self, s: Seq<int>) -> bool {
        &&& self.is_finish_order(s)
        &&& forall|i: int| 0 <= i < self.num_threads() ==> #[trigger] s.contains(i)
    }

    /// The state is free of deadlock: some safe sequence exists.
    pub open spec fn is_safe(self) -> bool {
        exists|s: Seq<int>| self.is_safe_sequence(s)
    }

    /// The state after creating resource `id` with `count` units: the
    /// vector and every row grow with zeros to cover `id`, then
    /// `available[id]` becomes `count`.
    pub open spec fn with_resource(self, id: int, count: usize) -> DetectorState {
        let m = if id < self.num_resources() {
            self.num_resources()
        } else {
            (id + 1) as nat
        };
        DetectorState {
            available: pad_zeros(self.available, m).update(id, count),
            allocation: Seq::new(self.allocation.len(), |i: int| pad_zeros(self.allocation[i], m)),
            need: Seq::new(self.need.len(), |i: int| pad_zeros(self.need[i], m)),
        }
    }

    /// The state after registering thread `tid`: the matrices grow with zero
    /// rows to cover `tid`, and row `tid` is cleared in both of them.
    pub open spec fn with_thread(self, tid: int) -> DetectorState {
        let n = if tid < self.num_threads() {
            self.num_threads()
        } else {
            (tid + 1) as nat
        };
        let m = self.num_resources();
        DetectorState {
            available: self.available,
            allocation: Seq::new(
                n,
                |i: int|
                    if i == tid || i >= self.num_threads() {
                        zeros(m)
                    } else {
                        self.allocation[i]
                    },
            ),
            need: Seq::new(
                n,
                |i: int|
                    if i == tid || i >= self.num_threads() {
                        zeros(m)
                    } else {
                        self.need[i]
                    },
            ),
        }
    }

    /// The state after thread `tid` starts waiting for one more unit of
    /// resource `id`.
    pub open spec fn after_request(self, tid: int, id: int) -> DetectorState {
        DetectorState {
            available: self.available,
            allocation: self.allocation,
            need: set_entry(self.need, tid, id, (self.need[tid][id] + 1) as usize),
        }
    }

    /// The state after thread `tid` stops waiting for one unit of resource
    /// `id`.
    pub open spec fn after_revoke(self, tid: int, id: int) -> DetectorState {
        DetectorState {
            available: self.available,
            allocation: self.allocation,
            need: set_entry(self.need, tid, id, (self.need[tid][id] - 1) as usize),
        }
    }

    /// The state after thread `tid` obtains the unit of resource `id` it
    /// waited for: the request is withdrawn, the allocation grows by one and
    /// one unit leaves the available pool.
    pub open spec fn after_allocate(self, tid: int, id: int) -> DetectorState {
        DetectorState {
            available: self.available.update(id, (self.available[id] - 1) as usize),
            allocation: set_entry(self.allocation, tid, id, (self.allocation[tid][id] + 1) as usize),
            need: set_entry(self.need, tid, id, (self.need[tid][id] - 1) as usize),
        }
    }

    /// The state after thread `tid` releases one unit of resource `id`.
    pub open spec fn after_dealloc(self, tid: int, id: int) -> DetectorState {
        DetectorState {
            available: self.available.update(id, (self.available[id] + 1) as usize),
            allocation: set_entry(self.allocation, tid, id, (self.allocation[tid][id] - 1) as usize),
            need: self.need,
        }
    }

    /// The sums the safety check adds up fit in a `usize`: once the threads
    /// of any finish order have finished, the units of every resource at hand
    /// fit.
    pub open spec fn sums_fit(self) -> bool {
        forall|s: Seq<int>|
            #[trigger] self.is_finish_order(s) ==> forall|j: int|
                0 <= j < self.num_resources() ==> #[trigger] self.work(ran(s, self.num_threads()), j)
                    <= usize::MAX
    }
}

/// Sum, over the threads `i < k` marked in `done`, of `allocation[i][j]`.
pub open spec fn released(allocation: Seq<Seq<usize>>, done: Seq<bool>, j: int, k: int) -> int
    decreases k,
{
    if k <= 0 {
        0
    } else {
        released(allocation, done, j, k - 1) + if done[k - 1] {
            allocation[k - 1][j] as int
        } else {
            0
        }
    }
}

/// Marks the threads below `n` that occur in `s`.
pub open spec fn ran(s: Seq<int>, n: nat) -> Seq<bool> {
    Seq::new(n, |i: int| s.contains(i))
}

/// Marks all `n` threads.
pub open spec fn all_done(n: nat) -> Seq<bool> {
    Seq::new(n, |i: int| true)
}

/// Number of marked entries among the first `k`.
pub open spec fn count_marked(done: Seq<bool>, k: int) -> int
    decreases k,
{
    if k <= 0 {
        0
    } else {
        count_marked(done, k - 1) + if done[k - 1] {
            1int
        } else {
            0
        }
    }
}

proof fn lemma_released_mono(allocation: Seq<Seq<usize>>, d1: Seq<bool>, d2: Seq<bool>, j: int, k: int)
    requires
        forall|i: int| 0 <= i < k ==> #[trigger] d1[i] ==> d2[i],
    ensures
        released(allocation, d1, j, k) <= released(allocation, d2, j, k),
    decreases k,
{
    if k > 0 {
        lemma_released_mono(allocation, d1, d2, j, k - 1);
        assert(d1[k - 1] ==> d2[k - 1]);
    }
}

proof fn lemma_released_mark(allocation: Seq<Seq<usize>>, d: Seq<bool>, i: int, j: int, k: int)
    requires
        0 <= i < d.len(),
        !d[i],
        k <= d.len(),
    ensures
        released(allocation, d.update(i, true), j, k) == released(allocation, d, j, k) + if i < k {
            allocation[i][j] as int
        } else {
            0
        },
    decreases k,
{
    if k > 0 {
        lemma_released_mark(allocation, d, i, j, k - 1);
    }
}

proof fn lemma_count_mark(d: Seq<bool>, i: int, k: int)
    requires
        0 <= i < d.len(),
        !d[i],
        k <= d.len(),
    ensures
        count_marked(d.update(i, true), k) == count_marked(d, k) + if i < k {
            1int
        } else {
            0
        },
    decreases k,
{
    if k > 0 {
        lemma_count_mark(d, i, k - 1);
    }
}

proof fn lemma_count_bound(d: Seq<bool>, k: int)
    requires
        k >= 0,
    ensures
        0 <= count_marked(d, k) <= k,
    decreases k,
{
    if k > 0 {
        lemma_count_bound(d, k - 1);
    }
}

/// Once no unfinished thread can finish, every prefix of a finish order
/// consists of finished threads.
proof fn lemma_prefix_finished(st: DetectorState, done: Seq<bool>, s: Seq<int>, k: int)
    requires
        st.wf(),
        done.len() == st.num_threads(),
        forall|i: int| 0 <= i < st.num_threads() ==> #[trigger] done[i] || !st.can_finish(i, done),
        st.is_finish_order(s),
        0 <= k <= s.len(),
    ensures
        forall|k2: int| 0 <= k2 < k ==> #[trigger] done[s[k2]],
    decreases k,
{
    if k > 0 {
        lemma_prefix_finished(st, done, s, k - 1);
        let n = st.num_threads();
        let pre = ran(s.take(k - 1), n);
        assert forall|i: int| 0 <= i < n && #[trigger] pre[i] implies done[i] by {
            if pre[i] {
                assert(s.take(k - 1).contains(i));
                let k2 = choose|k2: int| 0 <= k2 < k - 1 && #[trigger] s.take(k - 1)[k2] == i;
                assert(s[k2] == i);
            }
        }
        let t = s[k - 1];
        assert(st.can_finish(t, pre));
        assert forall|j: int| 0 <= j < st.num_resources() implies #[trigger] st.need[t][j] <= st.work(done, j) by {
            lemma_released_mono(st.allocation, pre, done, j, n as int);
        }
        assert(st.can_finish(t, done));
    }
}

/// A state in which no unfinished thread can finish, while some thread is
/// unfinished, has no safe sequence.
proof fn lemma_stuck_is_unsafe(st: DetectorState, done: Seq<bool>)
    requires
        st.wf(),
        done.len() == st.num_threads(),
        forall|i: int| 0 <= i < st.num_threads() ==> #[trigger] done[i] || !st.can_finish(i, done),
        exists|i: int| 0 <= i < st.num_threads() && !#[trigger] done[i],
    ensures
        !st.is_safe(),
{
    if st.is_safe() {
        let s = choose|s: Seq<int>| st.is_safe_sequence(s);
        lemma_prefix_finished(st, done, s, s.len() as int);
        let i = choose|i: int| 0 <= i < st.num_threads() && !#[trigger] done[i];
        assert(s.contains(i));
        let k = choose|k: int| 0 <= k < s.len() && #[trigger] s[k] == i;
        assert(done[s[k]]);
    }
}

/// A deadlock detector for mutexes and semaphores.
pub struct DeadlockDetector {
    /// Whether the deadlock detector is enabled.
    pub enabled: bool,
    /// Detector for mutex deadlocks.
    pub mutex_detector: Option<DeadlockDetectStruct>,
    /// Detector for semaphore deadlocks.
    pub semaphore_detector: Option<DeadlockDetectStruct>,
}

/// An absent detector, or a present one whose state is well formed.
pub open spec fn opt_wf(d: Option<DeadlockDetectStruct>) -> bool {
    match d {
        Some(x) => x@.wf(),
        None => true,
    }
}

/// A present detector whose state admits no safe sequence.
pub open spec fn opt_deadlocked(d: Option<DeadlockDetectStruct>) -> bool {
    match d {
        Some(x) => !x@.is_safe(),
        None => false,
    }
}

/// An absent detector, or a present one whose safety check sums fit a
/// `usize`.
pub open spec fn opt_sums_fit(d: Option<DeadlockDetectStruct>) -> bool {
    match d {
        Some(x) => x@.sums_fit(),
        None => true,
    }
}

/// `after` is `before` with thread `tid` registered (both absent, or both
/// present with the state of `after` being that of `before` with the thread).
pub open spec fn opt_with_thread(
    before: Option<DeadlockDetectStruct>,
    after: Option<DeadlockDetectStruct>,
    tid: int,
) -> bool {
    match before {
        Some(x) => after is Some && after->0@ == x@.with_thread(tid),
        None => after is None,
    }
}

/// The state of a fresh detector: one thread, no resources.
pub open spec fn initial_state() -> DetectorState {
    DetectorState {
        available: Seq::empty(),
        allocation: seq![Seq::<usize>::empty()],
        need: seq![Seq::<usize>::empty()],
    }
}

impl DeadlockDetector {
    /// A disabled detector with a fresh mutex detector and a fresh semaphore
    /// detector.
    pub fn new() -> (r: Self)
        ensures
            !r.enabled,
            r.mutex_detector is Some && r.mutex_detector->0@ == initial_state(),
            r.semaphore_detector is Some && r.semaphore_detector->0@ == initial_state(),
            opt_wf(r.mutex_detector),
            opt_wf(r.semaphore_detector),
    {
        Self {
            enabled: false,
            mutex_detector: Some(DeadlockDetectStruct::new()),
            semaphore_detector: Some(DeadlockDetectStruct::new()),
        }
    }

    /// Registers thread `tid` with both detectors that are present.
    pub fn add_thread(&mut self, tid: usize)
        requires
            opt_wf(old(self).mutex_detector),
            opt_wf(old(self).semaphore_detector),
            tid < usize::MAX,
        ensures
            final(self).enabled == old(self).enabled,
            opt_with_thread(old(self).mutex_detector, final(self).mutex_detector, tid as int),
            opt_with_thread(old(self).semaphore_detector, final(self).semaphore_detector, tid as int),
            opt_wf(final(self).mutex_detector),
            opt_wf(final(self).semaphore_detector),
    {
        match &mut self.mutex_detector {
            Some(d) => d.add_thread(tid),
            None => {},
        }
        match &mut self.semaphore_detector {
            Some(d) => d.add_thread(tid),
            None => {},
        }
    }

    /// Reports a deadlock when either present detector finds one.
    pub fn detect_deadlock(&self) -> (r: bool)
        requires
            opt_wf(self.mutex_detector),
            opt_wf(self.semaphore_detector),
            opt_sums_fit(self.mutex_detector),
            opt_sums_fit(self.semaphore_detector),
        ensures
            r == (opt_deadlocked(self.mutex_detector) || opt_deadlocked(self.semaphore_detector)),
    {
        match &self.mutex_detector {
            Some(d) => {
                if d.detect_deadlock() {
                    return true;
                }
            },
            None => {},
        }
        match &self.semaphore_detector {
            Some(d) => {
                if d.detect_deadlock() {
                    return true;
                }
            },
            None => {},
        }
        false
    }
}

/// The bookkeeping of one detector: units available per resource, and units
/// allocated to and awaited by each thread per resource.
pub struct DeadlockDetectStruct {
    available: Vec<usize>,
    allocation: Vec<Vec<usize>>,
    need: Vec<Vec<usize>>,
}

/// `len` zeros.
pub open spec fn zeros(len: nat) -> Seq<usize> {
    Seq::new(len, |j: int| 0usize)
}

/// `s` extended with zeros up to length `len` (unchanged when it is already
/// that long).
pub open spec fn pad_zeros(s: Seq<usize>, len: nat) -> Seq<usize> {
    if len <= s.len() {
        s
    } else {
        s + zeros((len - s.len()) as nat)
    }
}

/// The matrix `rows` with entry `(i, j)` replaced by `v`.
pub open spec fn set_entry(rows: Seq<Seq<usize>>, i: int, j: int, v: usize) -> Seq<Seq<usize>> {
    rows.update(i, rows[i].update(j, v))
}

/// The contents of each row.
pub open spec fn rows_view(rows: Seq<Vec<usize>>) -> Seq<Seq<usize>> {
    Seq::new(rows.len(), |i: int| rows[i]@)
}

impl View for DeadlockDetectStruct {
    type V = DetectorState;

    closed spec fn view(&self) -> DetectorState {
        DetectorState {
            available: self.available@,
            allocation: rows_view(self.allocation@),
            need: rows_view(self.need@),
        }
    }
}

impl DeadlockDetectStruct {
    /// A detector with one thread and no resources.
    pub fn new() -> (r: Self)
        ensures
            r@.wf(),
            r@ == initial_state(),
    {
        let mut allocation: Vec<Vec<usize>> = Vec::new();
        allocation.push(Vec::new());
        let mut need: Vec<Vec<usize>> = Vec::new();
        need.push(Vec::new());
        let r = Self { available: Vec::new(), allocation, need };
        assert(r@.allocation =~= seq![Seq::<usize>::empty()]);
        assert(r@.need =~= seq![Seq::<usize>::empty()]);
        r
    }

    /// Creates resource `id` with `res_count` units: the resource vector and
    /// every row grow with zeros to cover `id`, then `available[id]` becomes
    /// `res_count`.
    pub fn create_resource(&mut self, id: usize, res_count: usize)
        requires
            old(self)@.wf(),
            id < usize::MAX,
        ensures
            final(self)@.wf(),
            final(self)@ == old(self)@.with_resource(id as int, res_count),
    {
        let m = self.available.len();
        let ghost m2: nat = if id < m { m as nat } else { (id + 1) as nat };
        if id >= m {
            pad_vec(&mut self.available, id + 1);
            pad_rows(&mut self.allocation, id + 1);
            pad_rows(&mut self.need, id + 1);
        }
        self.available.set(id, res_count);
        proof {
            assert(self@.available =~= pad_zeros(old(self)@.available, m2).update(id as int, res_count));
            assert(self@.allocation =~= Seq::new(
                old(self)@.num_threads(),
                |i: int| pad_zeros(old(self)@.allocation[i], m2),
            ));
            assert(self@.need =~= Seq::new(
                old(self)@.need.len(),
                |i: int| pad_zeros(old(self)@.need[i], m2),
            ));
        }
    }
}

impl DeadlockDetectStruct {
    /// Registers thread `tid`: the matrices grow with zero rows to cover
    /// `tid`, and row `tid` is cleared in both of them.
    pub fn add_thread(&mut self, tid: usize)
        requires
            old(self)@.wf(),
            tid < usize::MAX,
        ensures
            final(self)@.wf(),
            final(self)@ == old(self)@.with_thread(tid as int),
    {
        let m = self.available.len();
        let n = self.allocation.len();
        let ghost n2: nat = if tid < n { n as nat } else { (tid + 1) as nat };
        if tid >= n {
            grow_rows(&mut self.allocation, tid + 1, m);
            grow_rows(&mut self.need, tid + 1, m);
        }
        self.allocation.set(tid, zero_vec(m));
        self.need.set(tid, zero_vec(m));
        proof {
            let w = old(self)@.with_thread(tid as int);
            assert(self@.allocation =~= w.allocation);
            assert(self@.need =~= w.need);
        }
    }

    /// Thread `tid` starts waiting for one more unit of resource `id`.
    pub fn request(&mut self, tid: usize, id: usize)
        requires
            old(self)@.wf(),
            tid < old(self)@.num_threads(),
            id < old(self)@.num_resources(),
            old(self)@.need[tid as int][id as int] < usize::MAX,
        ensures
            final(self)@.wf(),
            final(self)@ == old(self)@.after_request(tid as int, id as int),
    {
        assert(self.need@[tid as int]@ == self@.need[tid as int]);
        self.need[tid][id] += 1;
        assert(self@.need =~= set_entry(
            old(self)@.need,
            tid as int,
            id as int,
            (old(self)@.need[tid as int][id as int] + 1) as usize,
        ));
    }

    /// Thread `tid` stops waiting for one unit of resource `id`.
    pub fn revoke_request(&mut self, tid: usize, id: usize)
        requires
            old(self)@.wf(),
            tid < old(self)@.num_threads(),
            id < old(self)@.num_resources(),
            old(self)@.need[tid as int][id as int] > 0,
        ensures
            final(self)@.wf(),
            final(self)@ == old(self)@.after_revoke(tid as int, id as int),
    {
        assert(self.need@[tid as int]@ == self@.need[tid as int]);
        self.need[tid][id] -= 1;
        assert(self@.need =~= set_entry(
            old(self)@.need,
            tid as int,
            id as int,
            (old(self)@.need[tid as int][id as int] - 1) as usize,
        ));
    }

    /// Thread `tid` obtains the unit of resource `id` it waited for: its
    /// request is withdrawn, its allocation grows by one and one unit leaves
    /// the available pool.
    pub fn allocate(&mut self, tid: usize, id: usize)
        requires
            old(self)@.wf(),
            tid < old(self)@.num_threads(),
            id < old(self)@.num_resources(),
            old(self)@.need[tid as int][id as int] > 0,
            old(self)@.allocation[tid as int][id as int] < usize::MAX,
            old(self)@.available[id as int] > 0,
        ensures
            final(self)@.wf(),
            final(self)@ == old(self)@.after_allocate(tid as int, id as int),
    {
        self.revoke_request(tid, id);
        assert(self.allocation@[tid as int]@ == self@.allocation[tid as int]);
        self.allocation[tid][id] += 1;
        self.available[id] -= 1;
        assert(self@.allocation =~= set_entry(
            old(self)@.allocation,
            tid as int,
            id as int,
            (old(self)@.allocation[tid as int][id as int] + 1) as usize,
        ));
    }

    /// Thread `tid` releases one unit of resource `id`, which returns to the
    /// available pool.
    pub fn dealloc(&mut self, tid: usize, id: usize)
        requires
            old(self)@.wf(),
            tid < old(self)@.num_threads(),
            id < old(self)@.num_resources(),
            old(self)@.allocation[tid as int][id as int] > 0,
            old(self)@.available[id as int] < usize::MAX,
        ensures
            final(self)@.wf(),
            final(self)@ == old(self)@.after_dealloc(tid as int, id as int),
    {
        assert(self.allocation@[tid as int]@ == self@.allocation[tid as int]);
        self.allocation[tid][id] -= 1;
        self.available[id] += 1;
        assert(self@.allocation =~= set_entry(
            old(self)@.allocation,
            tid as int,
            id as int,
            (old(self)@.allocation[tid as int][id as int] - 1) as usize,
        ));
    }
}

impl DeadlockDetectStruct {
    /// Whether everything thread `i` waits for is covered by `work`.
    fn fits(&self, i: usize, work: &Vec<usize>) -> (r: bool)
        requires
            self@.wf(),
            i < self@.num_threads(),
            work.len() == self@.num_resources(),
        ensures
            r == forall|j: int| 0 <= j < self@.num_resources() ==> #[trigger] self@.need[i as int][j] <= work@[j],
    {
        let m = work.len();
        let row = &self.need[i];
        assert(row@ == self@.need[i as int]);
        let mut j: usize = 0;
        while j < m
            invariant
                self@.wf(),
                i < self@.num_threads(),
                m == work.len() == row.len(),
                j <= m,
                row@ == self@.need[i as int],
                forall|j2: int| 0 <= j2 < j ==> #[trigger] self@.need[i as int][j2] <= work@[j2],
            decreases m - j,
        {
            if row[j] > work[j] {
                assert(self@.need[i as int][j as int] > work@[j as int]);
                return false;
            }
            j += 1;
        }
        true
    }

    /// Runs the safety check: repeatedly lets any unfinished thread whose
    /// needs are covered finish and release its allocation, and reports a
    /// deadlock when some thread is left unfinished; `None` when a sum of
    /// units overflows on the way.
    fn run_check(&self) -> (r: Option<bool>)
        requires
            self@.wf(),
        ensures
            r is None <==> !self@.sums_fit(),
            r matches Some(b) ==> b == !self@.is_safe(),
    {
        let m = self.available.len();
        let n = self.allocation.len();
        let ghost st = self@;
        let mut work: Vec<usize> = Vec::new();
        let mut j: usize = 0;
        while j < m
            invariant
                m == self.available.len(),
                j <= m,
                work@ == self.available@.subrange(0, j as int),
            decreases m - j,
        {
            work.push(self.available[j]);
            j += 1;
            assert(work@ =~= self.available@.subrange(0, j as int));
        }
        let mut finish: Vec<bool> = Vec::new();
        let mut i: usize = 0;
        while i < n
            invariant
                i <= n,
                finish@ == Seq::new(i as nat, |k: int| false),
            decreases n - i,
        {
            finish.push(false);
            i += 1;
            assert(finish@ =~= Seq::new(i as nat, |k: int| false));
        }
        let ghost mut order: Seq<int> = Seq::empty();
        proof {
            assert(finish@ =~= ran(order, n as nat));
            assert forall|j: int| 0 <= j < m implies work@[j] == st.work(finish@, j) by {
                lemma_released_mono(st.allocation, finish@, Seq::new(n as nat, |k: int| false), j, n as int);
                lemma_released_mono(st.allocation, Seq::new(n as nat, |k: int| false), finish@, j, n as int);
                lemma_released_zero(st.allocation, j, n as int);
            }
        }
        loop
            invariant
                st == self@,
                st.wf(),
                m == st.num_resources(),
                n == st.num_threads(),
                work.len() == m,
                finish@ == ran(order, n as nat),
                order.no_duplicates(),
                forall|k: int| 0 <= k < order.len() ==> 0 <= #[trigger] order[k] < n,
                forall|k: int|
                    0 <= k < order.len() ==> #[trigger] st.can_finish(order[k], ran(order.take(k), n as nat)),
                forall|j: int| 0 <= j < m ==> #[trigger] work@[j] == st.work(finish@, j),
            ensures
                work.len() == m,
                forall|j: int| 0 <= j < m ==> #[trigger] work@[j] == st.work(finish@, j),
                finish@ == ran(order, n as nat),
                order.no_duplicates(),
                forall|k: int| 0 <= k < order.len() ==> 0 <= #[trigger] order[k] < n,
                forall|k: int|
                    0 <= k < order.len() ==> #[trigger] st.can_finish(order[k], ran(order.take(k), n as nat)),
                forall|i: int| 0 <= i < n ==> #[trigger] finish@[i] || !st.can_finish(i, finish@),
            decreases n - count_marked(finish@, n as int),
        {
            let mut found = false;
            let ghost finish0 = finish@;
            let ghost work0 = work@;
            let mut i: usize = 0;
            while i < n
                invariant
                    st == self@,
                    st.wf(),
                    m == st.num_resources(),
                    n == st.num_threads(),
                    i <= n,
                    work.len() == m,
                    finish0.len() == n,
                    finish@ == ran(order, n as nat),
                    order.no_duplicates(),
                    forall|k: int| 0 <= k < order.len() ==> 0 <= #[trigger] order[k] < n,
                    forall|k: int|
                        0 <= k < order.len() ==> #[trigger] st.can_finish(order[k], ran(order.take(k), n as nat)),
                    forall|j: int| 0 <= j < m ==> #[trigger] work@[j] == st.work(finish@, j),
                    found ==> count_marked(finish@, n as int) > count_marked(finish0, n as int),
                    !found ==> finish@ == finish0 && work@ == work0,
                    !found ==> forall|i2: int| 0 <= i2 < i ==> #[trigger] finish@[i2] || !st.can_finish(i2, finish@),
                decreases n - i,
            {
                if !finish[i] && self.fits(i, &work) {
                    let ghost before = finish@;
                    let ghost work1 = work@;
                    assert(st.can_finish(i as int, before));
                    let row = &self.allocation[i];
                    assert(row@ == st.allocation[i as int]);
                    let ghost old_order = order;
                    let ghost new_order = order.push(i as int);
                    proof {
                        assert(!old_order.contains(i as int)) by {
                            assert(before[i as int] == old_order.contains(i as int));
                        }
                        assert(new_order[old_order.len() as int] == i);
                        assert forall|x: int| 0 <= x < n implies #[trigger] before.update(i as int, true)[x]
                            == new_order.contains(x) by {
                            if x == i {
                            } else {
                                assert(before[x] == old_order.contains(x));
                                if old_order.contains(x) {
                                    let k = choose|k: int| 0 <= k < old_order.len() && old_order[k] == x;
                                    assert(new_order[k] == x);
                                }
                                if new_order.contains(x) {
                                    let k = choose|k: int| 0 <= k < new_order.len() && new_order[k] == x;
                                    assert(old_order[k] == x);
                                }
                            }
                        }
                        assert(before.update(i as int, true) =~= ran(new_order, n as nat));
                        assert(new_order.no_duplicates()) by {
                            assert forall|a: int, b: int|
                                0 <= a < new_order.len() && 0 <= b < new_order.len() && a != b implies new_order[a]
                                != new_order[b] by {
                                if a < old_order.len() && b < old_order.len() {
                                } else if a < old_order.len() {
                                    assert(old_order.contains(new_order[a]));
                                } else if b < old_order.len() {
                                    assert(old_order.contains(new_order[b]));
                                }
                            }
                        }
                        assert(new_order.take(old_order.len() as int) =~= old_order);
                        assert forall|k: int| 0 <= k < new_order.len() implies #[trigger] st.can_finish(
                            new_order[k],
                            ran(new_order.take(k), n as nat),
                        ) by {
                            if k < old_order.len() {
                                assert(new_order.take(k) =~= old_order.take(k));
                            } else {
                                assert(ran(new_order.take(k), n as nat) =~= before);
                            }
                        }
                        assert(st.is_finish_order(new_order));
                    }
                    let mut j: usize = 0;
                    while j < m
                        invariant
                            st == self@,
                            st.wf(),
                            m == st.num_resources(),
                            n == st.num_threads(),
                            i < n,
                            j <= m,
                            row@ == st.allocation[i as int],
                            before.len() == n,
                            !before[i as int],
                            st.is_finish_order(new_order),
                            ran(new_order, n as nat) == before.update(i as int, true),
                            work.len() == m,
                            work1.len() == m,
                            forall|j2: int| 0 <= j2 < m ==> #[trigger] work1[j2] == st.work(before, j2),
                            forall|j2: int| 0 <= j2 < j ==> #[trigger] work@[j2] == work1[j2] + row@[j2],
                            forall|j2: int| j <= j2 < m ==> #[trigger] work@[j2] == work1[j2],
                        decreases m - j,
                    {
                        proof {
                            lemma_released_mark(st.allocation, before, i as int, j as int, n as int);
                        }
                        match work[j].checked_add(row[j]) {
                            Some(v) => work.set(j, v),
                            None => {
                                assert(st.work(ran(new_order, n as nat), j as int) > usize::MAX);
                                return None;
                            },
                        }
                        j += 1;
                    }
                    finish.set(i, true);
                    proof {
                        assert forall|j2: int| 0 <= j2 < m implies #[trigger] work@[j2] == st.work(finish@, j2) by {
                            lemma_released_mark(st.allocation, before, i as int, j2, n as int);
                        }
                        lemma_count_mark(before, i as int, n as int);
                        if found {
                        } else {
                            assert(before == finish0);
                        }
                        order = new_order;
                        assert(finish@ =~= ran(order, n as nat));
                    }
                    found = true;
                }
                i += 1;
            }
            if !found {
                break;
            }
            proof {
                lemma_count_bound(finish0, n as int);
                lemma_count_bound(finish@, n as int);
            }
        }
        let mut any_unfinished = false;
        let mut i: usize = 0;
        while i < n
            invariant
                finish.len() == n,
                i <= n,
                any_unfinished == exists|i2: int| 0 <= i2 < i && !#[trigger] finish@[i2],
            decreases n - i,
        {
            if !finish[i] {
                any_unfinished = true;
            }
            i += 1;
        }
        proof {
            if any_unfinished {
                lemma_stuck_is_unsafe(st, finish@);
            } else {
                assert forall|x: int| 0 <= x < n implies #[trigger] order.contains(x) by {
                    assert(finish@[x]);
                }
                assert(st.is_safe_sequence(order));
            }
            assert forall|s: Seq<int>| #[trigger] st.is_finish_order(s) implies forall|j: int|
                0 <= j < m ==> #[trigger] st.work(ran(s, n as nat), j) <= usize::MAX by {
                lemma_prefix_finished(st, finish@, s, s.len() as int);
                assert forall|x: int| 0 <= x < n && #[trigger] ran(s, n as nat)[x] implies finish@[x] by {
                    assert(s.contains(x));
                    let k = choose|k: int| 0 <= k < s.len() && s[k] == x;
                    assert(finish@[s[k]]);
                }
                assert forall|j: int| 0 <= j < m implies #[trigger] st.work(ran(s, n as nat), j)
                    <= usize::MAX by {
                    lemma_released_mono(st.allocation, ran(s, n as nat), finish@, j, n as int);
                    assert(work@[j] == st.work(finish@, j));
                }
            }
        }
        Some(any_unfinished)
    }

    /// Runs the safety check: repeatedly lets any unfinished thread whose
    /// needs are covered finish and release its allocation, and reports a
    /// deadlock when some thread is left unfinished.
    pub fn detect_deadlock(&self) -> (r: bool)
        requires
            self@.wf(),
            self@.sums_fit(),
        ensures
            r == !self@.is_safe(),
    {
        match self.run_check() {
            Some(b) => b,
            // cannot happen: the sums fit
            None => false,
        }
    }

    /// Whether the sums the safety check adds up fit in a `usize`, as
    /// `detect_deadlock` needs.
    pub fn sums_fit(&self) -> (r: bool)
        requires
            self@.wf(),
        ensures
            r == self@.sums_fit(),
    {
        self.run_check().is_some()
    }
}

proof fn lemma_released_zero(allocation: Seq<Seq<usize>>, j: int, k: int)
    ensures
        released(allocation, Seq::new(k as nat, |x: int| false), j, k) == 0,
    decreases k,
{
    if k > 0 {
        lemma_released_zero_prefix(allocation, Seq::new(k as nat, |x: int| false), j, k);
    }
}

proof fn lemma_released_zero_prefix(allocation: Seq<Seq<usize>>, d: Seq<bool>, j: int, k: int)
    requires
        forall|x: int| 0 <= x < k ==> !#[trigger] d[x],
    ensures
        released(allocation, d, j, k) == 0,
    decreases k,
{
    if k > 0 {
        lemma_released_zero_prefix(allocation, d, j, k - 1);
    }
}

impl DeadlockDetectStruct {
    /// Number of resources.
    pub fn num_resources(&self) -> (r: usize)
        ensures
            r == self@.num_resources(),
    {
        self.available.len()
    }

    /// Number of threads.
    pub fn num_threads(&self) -> (r: usize)
        ensures
            r == self@.num_threads(),
    {
        self.allocation.len()
    }

    /// Units of resource `id` available.
    pub fn available(&self, id: usize) -> (r: usize)
        requires
            id < self@.num_resources(),
        ensures
            r == self@.available[id as int],
    {
        self.available[id]
    }

    /// Units of resource `id` allocated to thread `tid`.
    pub fn allocation(&self, tid: usize, id: usize) -> (r: usize)
        requires
            self@.wf(),
            tid < self@.num_threads(),
            id < self@.num_resources(),
        ensures
            r == self@.allocation[tid as int][id as int],
    {
        assert(self.allocation@[tid as int]@ == self@.allocation[tid as int]);
        self.allocation[tid][id]
    }

    /// Units of resource `id` that thread `tid` waits for.
    pub fn need(&self, tid: usize, id: usize) -> (r: usize)
        requires
            self@.wf(),
            tid < self@.num_threads(),
            id < self@.num_resources(),
        ensures
            r == self@.need[tid as int][id as int],
    {
        assert(self.need@[tid as int]@ == self@.need[tid as int]);
        self.need[tid][id]
    }
}

/// A vector of `len` zeros.
fn zero_vec(len: usize) -> (v: Vec<usize>)
    ensures
        v@ == zeros(len as nat),
{
    let mut v: Vec<usize> = Vec::new();
    pad_vec(&mut v, len);
    assert(v@ =~= zeros(len as nat));
    v
}

/// Appends rows of `m` zeros until `rows` has `len` rows.
fn grow_rows(rows: &mut Vec<Vec<usize>>, len: usize, m: usize)
    requires
        old(rows).len() <= len,
    ensures
        final(rows)@.len() == len,
        forall|i: int| 0 <= i < old(rows)@.len() ==> #[trigger] final(rows)@[i] == old(rows)@[i],
        forall|i: int| old(rows)@.len() <= i < len ==> #[trigger] final(rows)@[i]@ == zeros(m as nat),
{
    while rows.len() < len
        invariant
            old(rows).len() <= rows.len() <= len,
            forall|i: int| 0 <= i < old(rows)@.len() ==> #[trigger] rows@[i] == old(rows)@[i],
            forall|i: int| old(rows)@.len() <= i < rows.len() ==> #[trigger] rows@[i]@ == zeros(m as nat),
        decreases len - rows.len(),
    {
        rows.push(zero_vec(m));
    }
}

/// Extends `v` with zeros up to length `len`.
fn pad_vec(v: &mut Vec<usize>, len: usize)
    ensures
        final(v)@ == pad_zeros(old(v)@, len as nat),
{
    if v.len() < len {
        let ghost n0 = v.len();
        while v.len() < len
            invariant
                n0 <= v.len() <= len,
                v@ == old(v)@ + zeros((v.len() - n0) as nat),
            decreases len - v.len(),
        {
            v.push(0);
            assert(v@ =~= old(v)@ + zeros((v.len() - n0) as nat));
        }
    }
}

/// Extends every row of `rows` with zeros up to length `len`.
fn pad_rows(rows: &mut Vec<Vec<usize>>, len: usize)
    ensures
        rows_view(final(rows)@) == Seq::new(
            old(rows)@.len(),
            |i: int| pad_zeros(old(rows)@[i]@, len as nat),
        ),
{
    let n = rows.len();
    let mut i: usize = 0;
    while i < n
        invariant
            n == rows.len() == old(rows).len(),
            i <= n,
            forall|k: int| 0 <= k < i ==> #[trigger] rows@[k]@ == pad_zeros(old(rows)@[k]@, len as nat),
            forall|k: int| i <= k < n ==> #[trigger] rows@[k] == old(rows)@[k],
        decreases n - i,
    {
        pad_vec(&mut rows[i], len);
        i += 1;
    }
    assert(rows_view(rows@) =~= Seq::new(
        old(rows)@.len(),
        |i: int| pad_zeros(old(rows)@[i]@, len as nat),
    ));
}

} // verus!

verus! {

proof fn lemma_released_nonneg(allocation: Seq<Seq<usize>>, done: Seq<bool>, j: int, k: int)
    ensures
        released(allocation, done, j, k) >= 0,
    decreases k,
{
    if k > 0 {
        lemma_released_nonneg(allocation, done, j, k - 1);
    }
}

proof fn lemma_released_set(
    allocation: Seq<Seq<usize>>,
    t: int,
    id: int,
    v: usize,
    done: Seq<bool>,
    j: int,
    k: int,
)
    requires
        0 <= t < allocation.len(),
        0 <= id < allocation[t].len(),
        0 <= j < allocation[t].len(),
        k <= allocation.len(),
    ensures
        released(set_entry(allocation, t, id, v), done, j, k) == released(allocation, done, j, k)
            + if j == id && t < k && done[t] {
            v - allocation[t][id]
        } else {
            0
        },
    decreases k,
{
    if k > 0 {
        lemma_released_set(allocation, t, id, v, done, j, k - 1);
    }
}

/// If every thread needs no more in `st2` than in `st1`, and for every set of
/// finished threads `st2` has at least as many units at hand as `st1`, then
/// a safe sequence of `st1` is one of `st2`.
proof fn lemma_safe_monotone(st1: DetectorState, st2: DetectorState)
    requires
        st1.wf(),
        st2.wf(),
        st2.num_threads() == st1.num_threads(),
        st2.num_resources() == st1.num_resources(),
        forall|i: int, j: int|
            0 <= i < st1.num_threads() && 0 <= j < st1.num_resources() ==> #[trigger] st2.need[i][j]
                <= st1.need[i][j],
        forall|d: Seq<bool>, j: int|
            d.len() == st1.num_threads() && 0 <= j < st1.num_resources() ==> #[trigger] st1.work(d, j)
                <= st2.work(d, j),
        st1.is_safe(),
    ensures
        st2.is_safe(),
{
    let s = choose|s: Seq<int>| st1.is_safe_sequence(s);
    let n = st1.num_threads();
    assert forall|k: int| 0 <= k < s.len() implies #[trigger] st2.can_finish(
        s[k],
        ran(s.take(k), n),
    ) by {
        assert(st1.can_finish(s[k], ran(s.take(k), n)));
        assert forall|j: int| 0 <= j < st2.num_resources() implies #[trigger] st2.need[s[k]][j]
            <= st2.work(ran(s.take(k), n), j) by {
            assert(st1.need[s[k]][j] <= st1.work(ran(s.take(k), n), j));
            assert(st1.work(ran(s.take(k), n), j) <= st2.work(ran(s.take(k), n), j));
        }
    }
    assert(st2.is_safe_sequence(s));
}

/// A state in which no thread waits for anything is free of deadlock; in
/// particular a freshly made detector is.
pub proof fn lemma_no_requests_is_safe(st: DetectorState)
    requires
        st.wf(),
        forall|i: int, j: int|
            0 <= i < st.num_threads() && 0 <= j < st.num_resources() ==> #[trigger] st.need[i][j]
                == 0,
    ensures
        st.is_safe(),
{
    let n = st.num_threads();
    let s = Seq::new(n, |i: int| i);
    assert forall|i: int| 0 <= i < n implies #[trigger] s.contains(i) by {
        assert(s[i] == i);
    }
    assert forall|k: int| 0 <= k < s.len() implies #[trigger] st.can_finish(s[k], ran(s.take(k), n)) by {
        assert forall|j: int| 0 <= j < st.num_resources() implies #[trigger] st.need[s[k]][j]
            <= st.work(ran(s.take(k), n), j) by {
            lemma_released_nonneg(st.allocation, ran(s.take(k), n), j, n as int);
        }
    }
    assert(st.is_safe_sequence(s));
}

/// Withdrawing a request undoes it: `request` followed by `revoke_request`
/// on the same thread and resource gives back the state it started from.
pub proof fn lemma_request_then_revoke(st: DetectorState, tid: int, id: int)
    requires
        st.wf(),
        0 <= tid < st.num_threads(),
        0 <= id < st.num_resources(),
        st.need[tid][id] < usize::MAX,
    ensures
        st.after_request(tid, id).after_revoke(tid, id) == st,
{
    let st2 = st.after_request(tid, id).after_revoke(tid, id);
    assert(st2.need[tid] =~= st.need[tid]);
    assert(st2.need =~= st.need);
}

/// A unit that a thread requests, obtains and then releases leaves no
/// trace: `request`, `allocate` and `dealloc` on the same thread and
/// resource give back the state they started from.
pub proof fn lemma_request_allocate_dealloc(st: DetectorState, tid: int, id: int)
    requires
        st.wf(),
        0 <= tid < st.num_threads(),
        0 <= id < st.num_resources(),
        st.need[tid][id] < usize::MAX,
        st.allocation[tid][id] < usize::MAX,
        st.available[id] > 0,
    ensures
        st.after_request(tid, id).after_allocate(tid, id).after_dealloc(tid, id) == st,
{
    let st2 = st.after_request(tid, id).after_allocate(tid, id).after_dealloc(tid, id);
    assert(st2.need[tid] =~= st.need[tid]);
    assert(st2.need =~= st.need);
    assert(st2.allocation[tid] =~= st.allocation[tid]);
    assert(st2.allocation =~= st.allocation);
    assert(st2.available =~= st.available);
}

/// Units are conserved: for every resource, the available units plus the
/// units allocated to all threads are the same before and after `allocate`
/// and before and after `dealloc`.
pub proof fn lemma_units_conserved(st: DetectorState, tid: int, id: int, j: int)
    requires
        st.wf(),
        0 <= tid < st.num_threads(),
        0 <= id < st.num_resources(),
        0 <= j < st.num_resources(),
    ensures
        st.allocation[tid][id] < usize::MAX && st.available[id] > 0 ==> st.after_allocate(
            tid,
            id,
        ).work(all_done(st.num_threads()), j) == st.work(all_done(st.num_threads()), j),
        st.allocation[tid][id] > 0 && st.available[id] < usize::MAX ==> st.after_dealloc(
            tid,
            id,
        ).work(all_done(st.num_threads()), j) == st.work(all_done(st.num_threads()), j),
{
    let n = st.num_threads();
    lemma_released_set(
        st.allocation,
        tid,
        id,
        (st.allocation[tid][id] + 1) as usize,
        all_done(n),
        j,
        n as int,
    );
    lemma_released_set(
        st.allocation,
        tid,
        id,
        (st.allocation[tid][id] - 1) as usize,
        all_done(n),
        j,
        n as int,
    );
}

/// Releasing a unit never brings about a deadlock: if the state was free of
/// deadlock, so is the state after `dealloc`.
pub proof fn lemma_dealloc_keeps_safe(st: DetectorState, tid: int, id: int)
    requires
        st.wf(),
        0 <= tid < st.num_threads(),
        0 <= id < st.num_resources(),
        st.allocation[tid][id] > 0,
        st.available[id] < usize::MAX,
        st.is_safe(),
    ensures
        st.after_dealloc(tid, id).is_safe(),
{
    let st2 = st.after_dealloc(tid, id);
    let n = st.num_threads();
    assert forall|d: Seq<bool>, j: int|
        d.len() == n && 0 <= j < st.num_resources() implies #[trigger] st.work(d, j) <= st2.work(
        d,
        j,
    ) by {
        lemma_released_set(
            st.allocation,
            tid,
            id,
            (st.allocation[tid][id] - 1) as usize,
            d,
            j,
            n as int,
        );
    }
    lemma_safe_monotone(st, st2);
}

/// Withdrawing a request never brings about a deadlock: if the state was
/// free of deadlock, so is the state after `revoke_request`.
pub proof fn lemma_revoke_keeps_safe(st: DetectorState, tid: int, id: int)
    requires
        st.wf(),
        0 <= tid < st.num_threads(),
        0 <= id < st.num_resources(),
        st.need[tid][id] > 0,
        st.is_safe(),
    ensures
        st.after_revoke(tid, id).is_safe(),
{
    let st2 = st.after_revoke(tid, id);
    assert forall|d: Seq<bool>, j: int|
        d.len() == st.num_threads() && 0 <= j < st.num_resources() implies #[trigger] st.work(d, j)
        <= st2.work(d, j) by {}
    lemma_safe_monotone(st, st2);
}

/// A new request never removes a deadlock: if the state admits no safe
/// sequence, neither does the state after `request`.
pub proof fn lemma_request_keeps_deadlock(st: DetectorState, tid: usize, id: usize)
    requires
        st.wf(),
        tid < st.num_threads(),
        id < st.num_resources(),
        st.need[tid as int][id as int] < usize::MAX,
        !st.is_safe(),
    ensures
        !st.after_request(tid as int, id as int).is_safe(),
{
    let st2 = st.after_request(tid as int, id as int);
    lemma_step_keeps_wf(st, DetectorOp::Request(tid, id));
    if st2.is_safe() {
        assert forall|i: int, j: int|
            0 <= i < st2.num_threads() && 0 <= j < st2.num_resources() implies #[trigger] st.need[i][j]
            <= st2.need[i][j] by {}
        assert forall|d: Seq<bool>, j: int|
            d.len() == st2.num_threads() && 0 <= j < st2.num_resources() implies #[trigger] st2.work(d, j)
            <= st.work(d, j) by {}
        lemma_safe_monotone(st2, st);
    }
}

/// One operation of the detector, with its arguments.
pub enum DetectorOp {
    CreateResource(usize, usize),
    AddThread(usize),
    Request(usize, usize),
    RevokeRequest(usize, usize),
    Allocate(usize, usize),
    Dealloc(usize, usize),
}

impl DetectorState {
    /// The operation's own precondition holds in this state (the original
    /// panics otherwise).
    pub open spec fn enabled(self, op: DetectorOp) -> bool {
        match op {
            DetectorOp::CreateResource(id, _) => id < usize::MAX,
            DetectorOp::AddThread(tid) => tid < usize::MAX,
            DetectorOp::Request(t, id) => t < self.num_threads() && id < self.num_resources()
                && self.need[t as int][id as int] < usize::MAX,
            DetectorOp::RevokeRequest(t, id) => t < self.num_threads() && id < self.num_resources()
                && self.need[t as int][id as int] > 0,
            DetectorOp::Allocate(t, id) => t < self.num_threads() && id < self.num_resources()
                && self.need[t as int][id as int] > 0 && self.allocation[t as int][id as int]
                < usize::MAX && self.available[id as int] > 0,
            DetectorOp::Dealloc(t, id) => t < self.num_threads() && id < self.num_resources()
                && self.allocation[t as int][id as int] > 0 && self.available[id as int]
                < usize::MAX,
        }
    }

    /// The state after the operation.
    pub open spec fn step(self, op: DetectorOp) -> DetectorState {
        match op {
            DetectorOp::CreateResource(id, count) => self.with_resource(id as int, count),
            DetectorOp::AddThread(tid) => self.with_thread(tid as int),
            DetectorOp::Request(t, id) => self.after_request(t as int, id as int),
            DetectorOp::RevokeRequest(t, id) => self.after_revoke(t as int, id as int),
            DetectorOp::Allocate(t, id) => self.after_allocate(t as int, id as int),
            DetectorOp::Dealloc(t, id) => self.after_dealloc(t as int, id as int),
        }
    }
}

/// The state a fresh detector reaches through `ops`.
pub open spec fn run(ops: Seq<DetectorOp>) -> DetectorState
    decreases ops.len(),
{
    if ops.len() == 0 {
        initial_state()
    } else {
        run(ops.drop_last()).step(ops.last())
    }
}

/// Every operation of `ops` is enabled in the state it is applied to.
pub open spec fn run_ok(ops: Seq<DetectorOp>) -> bool
    decreases ops.len(),
{
    ops.len() == 0 || (run_ok(ops.drop_last()) && run(ops.drop_last()).enabled(ops.last()))
}

proof fn lemma_pad_zeros_len(s: Seq<usize>, len: nat)
    ensures
        pad_zeros(s, len).len() == if len <= s.len() {
            s.len()
        } else {
            len
        },
{
}

proof fn lemma_step_keeps_wf(st: DetectorState, op: DetectorOp)
    requires
        st.wf(),
        st.enabled(op),
    ensures
        st.step(op).wf(),
        st.step(op).num_threads() >= st.num_threads(),
{
    let st2 = st.step(op);
    match op {
        DetectorOp::CreateResource(id, count) => {
            assert forall|i: int| 0 <= i < st2.allocation.len() implies #[trigger] st2.allocation[i].len()
                == st2.available.len() by {
                lemma_pad_zeros_len(st.allocation[i], st2.available.len());
            }
            assert forall|i: int| 0 <= i < st2.need.len() implies #[trigger] st2.need[i].len()
                == st2.available.len() by {
                lemma_pad_zeros_len(st.need[i], st2.available.len());
            }
        },
        _ => {},
    }
}

/// Every state that a fresh detector reaches through operations whose
/// preconditions hold is well formed and has at least one thread.
pub proof fn lemma_reachable_wf(ops: Seq<DetectorOp>)
    requires
        run_ok(ops),
    ensures
        run(ops).wf(),
        run(ops).num_threads() >= 1,
    decreases ops.len(),
{
    if ops.len() > 0 {
        lemma_reachable_wf(ops.drop_last());
        lemma_step_keeps_wf(run(ops.drop_last()), ops.last());
    }
}

/// Registering thread `tid` leaves every other registered thread's rows
/// alone, clears row `tid`, and adds zero rows only up to `tid`: the number
/// of threads becomes the larger of the old number and `tid + 1`.
pub proof fn lemma_add_thread_keeps_other_rows(st: DetectorState, tid: int)
    requires
        st.wf(),
        0 <= tid,
    ensures
        st.with_thread(tid).num_threads() == if tid < st.num_threads() {
            st.num_threads()
        } else {
            (tid + 1) as nat
        },
        st.with_thread(tid).available == st.available,
        forall|i: int|
            0 <= i < st.num_threads() && i != tid ==> #[trigger] st.with_thread(tid).allocation[i]
                == st.allocation[i] && st.with_thread(tid).need[i] == st.need[i],
        forall|i: int, j: int|
            0 <= i < st.with_thread(tid).num_threads() && (i == tid || i >= st.num_threads()) && 0 <= j
                < st.num_resources() ==> #[trigger] st.with_thread(tid).allocation[i][j] == 0
                && st.with_thread(tid).need[i][j] == 0,
        forall|i: int|
            0 <= i < st.with_thread(tid).num_threads() ==> #[trigger] st.with_thread(tid).allocation[i].len()
                == st.num_resources() && st.with_thread(tid).need[i].len() == st.num_resources(),
{
}

/// Creating resource `id` with `count` units sets its available units to
/// `count`, keeps every other resource's units and every thread's entries,
/// and gives the threads zero entries in the resources added to reach `id`.
pub proof fn lemma_create_resource_effect(st: DetectorState, id: int, count: usize)
    requires
        st.wf(),
        0 <= id,
    ensures
        st.with_resource(id, count).num_resources() == if id < st.num_resources() {
            st.num_resources()
        } else {
            (id + 1) as nat
        },
        st.with_resource(id, count).num_threads() == st.num_threads(),
        st.with_resource(id, count).available[id] == count,
        forall|j: int|
            0 <= j < st.num_resources() && j != id ==> #[trigger] st.with_resource(id, count).available[j]
                == st.available[j],
        forall|j: int|
            st.num_resources() <= j < st.with_resource(id, count).num_resources() && j != id
                ==> #[trigger] st.with_resource(id, count).available[j] == 0,
        forall|i: int, j: int|
            0 <= i < st.num_threads() && 0 <= j < st.num_resources() ==> #[trigger] st.with_resource(
                id,
                count,
            ).allocation[i][j] == st.allocation[i][j] && st.with_resource(id, count).need[i][j]
                == st.need[i][j],
        forall|i: int, j: int|
            0 <= i < st.num_threads() && st.num_resources() <= j < st.with_resource(id, count).num_resources()
                ==> #[trigger] st.with_resource(id, count).allocation[i][j] == 0 && st.with_resource(
                id,
                count,
            ).need[i][j] == 0,
{
}

/// `allocate` moves one unit of resource `id` from the pool to thread `tid`
/// and withdraws one unit of its request; every other entry is unchanged.
/// `dealloc` moves one unit back and leaves the requests alone.
pub proof fn lemma_allocate_dealloc_effect(st: DetectorState, tid: int, id: int, i: int, j: int)
    requires
        st.wf(),
        0 <= tid < st.num_threads(),
        0 <= id < st.num_resources(),
        0 <= i < st.num_threads(),
        0 <= j < st.num_resources(),
    ensures
        st.allocation[tid][id] < usize::MAX && st.available[id] > 0 && st.need[tid][id] > 0 ==> {
            let a = st.after_allocate(tid, id);
            &&& a.allocation[i][j] == st.allocation[i][j] + if i == tid && j == id {
                1int
            } else {
                0
            }
            &&& a.need[i][j] == st.need[i][j] - if i == tid && j == id {
                1int
            } else {
                0
            }
            &&& a.available[j] == st.available[j] - if j == id {
                1int
            } else {
                0
            }
        },
        st.allocation[tid][id] > 0 && st.available[id] < usize::MAX ==> {
            let d = st.after_dealloc(tid, id);
            &&& d.allocation[i][j] == st.allocation[i][j] - if i == tid && j == id {
                1int
            } else {
                0
            }
            &&& d.need[i][j] == st.need[i][j]
            &&& d.available[j] == st.available[j] + if j == id {
                1int
            } else {
                0
            }
        },
{
}

} // verus!
