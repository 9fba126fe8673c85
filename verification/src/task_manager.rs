//! The stride scheduler's ready queue.
//!
//! Every task carries a stride; the task with the least stride runs next and
//! its stride then grows by `BIG_STRIDE / priority`. Strides live in `u64`
//! and wrap around: two strides are compared by their difference modulo
//! 2^64, which orders them correctly as long as all strides in the queue lie
//! within half of the stride space of each other.
use std::cmp::Ordering;
use vstd::prelude::*;

verus! {

/// Stride for the stride scheduling algorithm.
#[derive(Copy, Clone)]
pub struct Stride(pub u64);

/// Priority for the stride scheduling algorithm.
#[derive(Copy, Clone)]
pub struct Priority(pub u64);

impl Stride {
    /// The stride space: a task of priority `p` advances by
    /// `BIG_STRIDE / p` each time it runs.
    pub const BIG_STRIDE: u64 = 0xffff_ffff_ffff_ffff;

    /// Half of the stride space.
    pub const HALF: u64 = 0x7fff_ffff_ffff_ffff;

    /// The stride of a task that has not run yet.
    pub fn init() -> (r: Self)
        ensures
            r.0 == 0,
    {
        Stride(0)
    }

    /// Orders strides for the ready queue: `Greater` when `self` is strictly
    /// behind `other` in the wrapping sense (its difference to `other`
    /// modulo 2^64 exceeds `HALF`), so that the task with the least stride is
    /// the greatest element; `Less` otherwise.
    pub fn cmp(&self, other: &Self) -> (r: Ordering)
        ensures
            r == (if runs_before(self.0, other.0) {
                Ordering::Greater
            } else {
                Ordering::Less
            }),
    {
        if self.0.wrapping_sub(other.0) <= Stride::HALF {
            Ordering::Less
        } else {
            Ordering::Greater
        }
    }
}

impl Priority {
    /// Default priority for stride scheduling.
    pub fn init() -> (r: Self)
        ensures
            r.0 == 16,
    {
        Priority(16)
    }
}

/// `a - b` modulo 2^64.
pub open spec fn wrap_diff(a: u64, b: u64) -> int {
    if a >= b {
        a - b
    } else {
        a - b + 0x1_0000_0000_0000_0000
    }
}

/// `a + b` modulo 2^64.
pub open spec fn wrap_add(a: u64, b: u64) -> u64 {
    if a + b > u64::MAX {
        (a + b - 0x1_0000_0000_0000_0000) as u64
    } else {
        (a + b) as u64
    }
}

/// Stride `a` is strictly ahead of stride `b` in the wrapping order, so a
/// task with stride `a` runs before one with stride `b`.
pub open spec fn runs_before(a: u64, b: u64) -> bool {
    wrap_diff(a, b) > Stride::HALF
}

/// A task as the ready queue sees it: its identity, the stride it had when
/// it was queued, and its priority.
#[derive(Copy, Clone)]
pub struct ReadyTask {
    pub pid: usize,
    pub stride: Stride,
    pub priority: Priority,
}

/// The task after one run: its stride advanced by `BIG_STRIDE / priority`,
/// wrapping around.
pub open spec fn advanced(t: ReadyTask) -> ReadyTask {
    ReadyTask {
        pid: t.pid,
        stride: Stride(wrap_add(t.stride.0, Stride::BIG_STRIDE / t.priority.0)),
        priority: t.priority,
    }
}

/// No task in `q` runs before `q[k]`.
pub open spec fn is_front(q: Seq<ReadyTask>, k: int) -> bool {
    &&& 0 <= k < q.len()
    &&& forall|y: int| 0 <= y < q.len() ==> !runs_before(#[trigger] q[y].stride.0, q[k].stride.0)
}

/// `q[k]` is the task to run next: the first task that no other task runs
/// before, or the first task of the queue when there is no such task.
pub open spec fn is_next(q: Seq<ReadyTask>, k: int) -> bool {
    if exists|f: int| is_front(q, f) {
        is_front(q, k) && forall|j: int| 0 <= j < k ==> !#[trigger] is_front(q, j)
    } else {
        k == 0 && q.len() > 0
    }
}

/// The ready queue of the stride scheduler.
pub struct TaskManager {
    ready_queue: Vec<ReadyTask>,
}

impl View for TaskManager {
    type V = Seq<ReadyTask>;

    closed spec fn view(&self) -> Seq<ReadyTask> {
        self.ready_queue@
    }
}

/// Whether a task with stride `a` runs before one with stride `b`.
fn stride_runs_before(a: u64, b: u64) -> (r: bool)
    ensures
        r == runs_before(a, b),
{
    a.wrapping_sub(b) > Stride::HALF
}

impl TaskManager {
    /// An empty ready queue.
    pub fn new() -> (r: Self)
        ensures
            r@ == Seq::<ReadyTask>::empty(),
    {
        TaskManager { ready_queue: Vec::new() }
    }

    /// Number of tasks in the ready queue.
    pub fn len(&self) -> (r: usize)
        ensures
            r == self@.len(),
    {
        self.ready_queue.len()
    }

    /// The task to run next, left in the queue; `None` on an empty queue.
    pub fn peek(&self) -> (r: Option<ReadyTask>)
        ensures
            self@.len() == 0 ==> r is None,
            self@.len() > 0 ==> exists|k: int| is_next(self@, k) && r == Some(self@[k]),
    {
        if self.ready_queue.len() == 0 {
            return None;
        }
        let k = self.pick();
        Some(self.ready_queue[k])
    }

    /// Puts a task back into the ready queue.
    pub fn add(&mut self, task: ReadyTask)
        ensures
            final(self)@ == old(self)@.push(task),
    {
        self.ready_queue.push(task);
    }

    /// Index of the task to run next.
    fn pick(&self) -> (k: usize)
        requires
            self@.len() > 0,
        ensures
            k < self@.len(),
            is_next(self@, k as int),
    {
        let n = self.ready_queue.len();
        let mut k: usize = 0;
        while k < n
            invariant
                n == self@.len(),
                k <= n,
                forall|f: int| 0 <= f < k ==> !is_front(self@, f),
            decreases n - k,
        {
            let s = self.ready_queue[k].stride.0;
            let mut y: usize = 0;
            let mut front = true;
            while y < n
                invariant
                    n == self@.len(),
                    k < n,
                    y <= n,
                    s == self@[k as int].stride.0,
                    front == forall|y2: int| 0 <= y2 < y ==> !runs_before(#[trigger] self@[y2].stride.0, s),
                decreases n - y,
            {
                if stride_runs_before(self.ready_queue[y].stride.0, s) {
                    front = false;
                }
                y += 1;
            }
            if front {
                assert(is_front(self@, k as int));
                return k;
            }
            k += 1;
        }
        0
    }

    /// Takes the next task out of the ready queue: the first task that no
    /// other queued task runs before (when one exists), returned with its
    /// stride advanced by `BIG_STRIDE / priority`; `None` on an empty queue.
    pub fn fetch(&mut self) -> (r: Option<ReadyTask>)
        requires
            forall|k: int| is_next(old(self)@, k) ==> #[trigger] old(self)@[k].priority.0 > 0,
        ensures
            old(self)@.len() == 0 ==> r is None && final(self)@ == old(self)@,
            old(self)@.len() > 0 ==> exists|k: int|
                0 <= k < old(self)@.len() && is_next(old(self)@, k) && final(self)@ == old(
                    self,
                )@.remove(k) && r == Some(advanced(old(self)@[k])),
    {
        if self.ready_queue.len() == 0 {
            return None;
        }
        let k = self.pick();
        let t = self.ready_queue.remove(k);
        assert(t.priority.0 > 0);
        let stride = Stride(t.stride.0.wrapping_add(Stride::BIG_STRIDE / t.priority.0));
        Some(ReadyTask { pid: t.pid, stride, priority: t.priority })
    }
}

} // verus!

verus! {

/// Every stride in `q` lies at most `HALF` above `base` in the wrapping
/// order.
pub open spec fn in_window(q: Seq<ReadyTask>, base: u64) -> bool {
    forall|y: int| 0 <= y < q.len() ==> #[trigger] wrap_diff(q[y].stride.0, base) <= Stride::HALF
}

/// Index of a task of `q[0..n]` whose stride lies least far above `base`.
proof fn least_above(q: Seq<ReadyTask>, base: u64, n: int) -> (k: int)
    requires
        0 < n <= q.len(),
    ensures
        0 <= k < n,
        forall|y: int| 0 <= y < n ==> wrap_diff(q[k].stride.0, base) <= #[trigger] wrap_diff(q[y].stride.0, base),
    decreases n,
{
    if n == 1 {
        0
    } else {
        let k = least_above(q, base, n - 1);
        if wrap_diff(q[n - 1].stride.0, base) < wrap_diff(q[k].stride.0, base) {
            n - 1
        } else {
            k
        }
    }
}

/// When all strides lie within `HALF` above a common base, the wrapping
/// order agrees with the distance above that base: stride `a` runs before
/// stride `b` exactly when `a` lies less far above the base.
proof fn lemma_window_order(a: u64, b: u64, base: u64)
    requires
        wrap_diff(a, base) <= Stride::HALF,
        wrap_diff(b, base) <= Stride::HALF,
    ensures
        runs_before(a, b) <==> wrap_diff(a, base) < wrap_diff(b, base),
        wrap_diff(a, base) >= wrap_diff(b, base) ==> wrap_diff(a, b) == wrap_diff(a, base) - wrap_diff(b, base),
{
}

/// While the strides of the ready tasks lie within half of the stride space
/// above some base, a task that no other runs before exists, every such task
/// has the least stride measured from that base (so `fetch` picks a task of
/// least stride, across wrap-around), and all strides lie within half of the
/// stride space above its stride.
pub proof fn lemma_window_front_is_least(q: Seq<ReadyTask>, base: u64)
    requires
        q.len() > 0,
        in_window(q, base),
    ensures
        exists|f: int| is_front(q, f),
        forall|k: int, y: int|
            #![trigger is_front(q, k), wrap_diff(q[y].stride.0, base)]
            is_front(q, k) && 0 <= y < q.len() ==> wrap_diff(q[k].stride.0, base) <= wrap_diff(
                q[y].stride.0,
                base,
            ),
        forall|k: int| is_front(q, k) ==> in_window(q, #[trigger] q[k].stride.0),
{
    let m = least_above(q, base, q.len() as int);
    assert forall|y: int| 0 <= y < q.len() implies !runs_before(#[trigger] q[y].stride.0, q[m].stride.0) by {
        assert(wrap_diff(q[y].stride.0, base) <= Stride::HALF);
        lemma_window_order(q[y].stride.0, q[m].stride.0, base);
    }
    assert(is_front(q, m));
    assert forall|k: int, y: int|
        #![trigger is_front(q, k), wrap_diff(q[y].stride.0, base)]
        is_front(q, k) && 0 <= y < q.len() implies wrap_diff(q[k].stride.0, base) <= wrap_diff(
        q[y].stride.0,
        base,
    ) by {
        assert(wrap_diff(q[y].stride.0, base) <= Stride::HALF);
        assert(wrap_diff(q[k].stride.0, base) <= Stride::HALF);
        assert(!runs_before(q[y].stride.0, q[k].stride.0));
        lemma_window_order(q[y].stride.0, q[k].stride.0, base);
    }
    assert forall|k: int| is_front(q, k) implies in_window(q, #[trigger] q[k].stride.0) by {
        assert forall|y: int| 0 <= y < q.len() implies #[trigger] wrap_diff(q[y].stride.0, q[k].stride.0)
            <= Stride::HALF by {
            assert(wrap_diff(q[y].stride.0, base) <= Stride::HALF);
            assert(wrap_diff(q[k].stride.0, base) <= Stride::HALF);
            assert(!runs_before(q[y].stride.0, q[k].stride.0));
            lemma_window_order(q[y].stride.0, q[k].stride.0, base);
        }
    }
}

/// With priority at least 2 a task advances by at most `HALF`: when the
/// strides lie within `HALF` above the stride of the task that is fetched,
/// they still do after it is advanced and added back.
pub proof fn lemma_fetch_add_keeps_window(q: Seq<ReadyTask>, k: int)
    requires
        0 <= k < q.len(),
        in_window(q, q[k].stride.0),
        q[k].priority.0 >= 2,
    ensures
        in_window(q.remove(k).push(advanced(q[k])), q[k].stride.0),
{
    let p = q[k].priority.0;
    assert(Stride::BIG_STRIDE / p <= Stride::HALF) by (nonlinear_arith)
        requires
            p >= 2,
    ;
    let q2 = q.remove(k).push(advanced(q[k]));
    assert forall|y: int| 0 <= y < q2.len() implies #[trigger] wrap_diff(q2[y].stride.0, q[k].stride.0)
        <= Stride::HALF by {
        if y < k {
            assert(q2[y] == q[y]);
        } else if y < q.len() - 1 {
            assert(q2[y] == q[y + 1]);
        }
    }
}

/// A fetched task advances by `u64::MAX / priority`, modulo 2^64: its new
/// stride is its old stride plus that amount, wrapping around.
pub proof fn lemma_advance_amount(t: ReadyTask)
    requires
        t.priority.0 > 0,
    ensures
        advanced(t).stride.0 == (t.stride.0 as int + 0xffff_ffff_ffff_ffffint / t.priority.0 as int)
            % 0x1_0000_0000_0000_0000int,
        advanced(t).pid == t.pid,
        advanced(t).priority == t.priority,
{
    let a = 0xffff_ffff_ffff_ffffu64 / t.priority.0;
    assert(a <= 0xffff_ffff_ffff_ffffu64);
}

} // verus!
