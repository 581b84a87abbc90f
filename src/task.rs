//! Task control blocks and the stride-scheduling ready pool.
use vstd::prelude::*;

verus! {

/// Number of syscall identifiers that a task's counters cover.
pub const MAX_SYSCALL_NUM: usize = 500;

/// The stride that a task of priority 1 advances by each time it is picked.
pub const BIG_STRIDE: u64 = 65536;

/// Where a task stands in its life cycle.
#[derive(Clone, Copy, Debug, PartialEq, Eq, Structural)]
pub enum TaskStatus {
    UnInit,
    Ready,
    Running,
    Exited,
}

/// The scheduler's record of one task.
///
/// `stride` is a 128-bit counter, wide enough that it never wraps: a task
/// advances by a pass of at most `BIG_STRIDE` (2^16) per turn, so its stride
/// can reach the top of the range only after some 2^112 turns. Each pick
/// adds the pass exactly; `fetch` asks, as a machine limit, that the sum
/// fits.
#[derive(Debug)]
pub struct TaskControlBlock {
    pub id: usize,
    pub status: TaskStatus,
    pub stride: u128,
    pub pass: u64,
    pub syscall_times: Vec<u32>,
    pub start_time: Option<usize>,
}

/// `t` as the run loop hands it the processor at time `now_ms`: running,
/// with its first dispatch time set once.
pub open spec fn dispatched(t: TaskControlBlock, now_ms: usize) -> TaskControlBlock {
    TaskControlBlock {
        status: TaskStatus::Running,
        start_time: if t.start_time is Some {
            t.start_time
        } else {
            Some(now_ms)
        },
        ..t
    }
}

/// `t` back in the ready pool.
pub open spec fn readied(t: TaskControlBlock) -> TaskControlBlock {
    TaskControlBlock { status: TaskStatus::Ready, ..t }
}

/// Every stride in `s` can take one more pass without leaving its range.
pub open spec fn strides_fit(s: Seq<TaskControlBlock>) -> bool {
    forall|j: int| 0 <= j < s.len() ==> #[trigger] s[j].stride + s[j].pass <= u128::MAX
}

/// The counters `times` after one more call of syscall `id`: identifiers
/// beyond the counters are not counted, and a counter stops at `u32::MAX`.
pub open spec fn counted(times: Seq<u32>, id: usize) -> Seq<u32> {
    if id < times.len() {
        times.update(id as int, times[id as int].saturating_add(1))
    } else {
        times
    }
}

/// The task as it leaves the pool: its stride advanced by its pass.
pub open spec fn advanced(t: TaskControlBlock) -> TaskControlBlock {
    TaskControlBlock { stride: (t.stride + t.pass) as u128, ..t }
}

impl TaskControlBlock {
    /// A positive pass and one counter per syscall identifier.
    pub open spec fn wf(&self) -> bool {
        &&& self.pass > 0
        &&& self.syscall_times@.len() == MAX_SYSCALL_NUM
    }

    /// A fresh task of the given priority, with `pass = BIG_STRIDE / priority`;
    /// `None` where that pass would not be positive.
    pub fn new(id: usize, priority: u64) -> (r: Option<TaskControlBlock>)
        ensures
            r is Some == (1 <= priority <= BIG_STRIDE),
            r is Some ==> {
                let t = r->0;
                &&& t.wf()
                &&& t.id == id
                &&& t.status == TaskStatus::Ready
                &&& t.stride == 0
                &&& t.pass == BIG_STRIDE / priority
                &&& t.start_time is None
                &&& forall|k: int| 0 <= k < MAX_SYSCALL_NUM ==> #[trigger] t.syscall_times@[k] == 0
            },
    {
        if priority == 0 || priority > BIG_STRIDE {
            return None;
        }
        let mut times: Vec<u32> = Vec::new();
        let mut k: usize = 0;
        while k < MAX_SYSCALL_NUM
            invariant
                k <= MAX_SYSCALL_NUM,
                times@.len() == k,
                forall|j: int| 0 <= j < k ==> #[trigger] times@[j] == 0,
            decreases MAX_SYSCALL_NUM - k,
        {
            times.push(0);
            k = k + 1;
        }
        assert(BIG_STRIDE / priority > 0) by (nonlinear_arith)
            requires
                1 <= priority <= BIG_STRIDE,
        ;
        Some(
            TaskControlBlock {
                id,
                status: TaskStatus::Ready,
                stride: 0,
                pass: BIG_STRIDE / priority,
                syscall_times: times,
                start_time: None,
            },
        )
    }

    /// Counts one more call of syscall `syscall_id`; identifiers beyond the
    /// counters are not counted. A counter stops at `u32::MAX`.
    pub fn record_syscall(&mut self, syscall_id: usize)
        requires
            old(self).wf(),
        ensures
            final(self).wf(),
            final(self).syscall_times@ == counted(old(self).syscall_times@, syscall_id),
            final(self).id == old(self).id,
            final(self).status == old(self).status,
            final(self).stride == old(self).stride,
            final(self).pass == old(self).pass,
            final(self).start_time == old(self).start_time,
    {
        if syscall_id < MAX_SYSCALL_NUM {
            let c = self.syscall_times[syscall_id];
            self.syscall_times.set(syscall_id, c.saturating_add(1));
        }
    }

    /// The task starts running at time `now_ms`; the first such time is kept.
    pub fn mark_dispatched(&mut self, now_ms: usize)
        ensures
            final(self).status == TaskStatus::Running,
            final(self).start_time == if old(self).start_time is Some {
                old(self).start_time
            } else {
                Some(now_ms)
            },
            final(self).id == old(self).id,
            final(self).stride == old(self).stride,
            final(self).pass == old(self).pass,
            final(self).syscall_times@ == old(self).syscall_times@,
            *final(self) == dispatched(*old(self), now_ms),
    {
        self.status = TaskStatus::Running;
        if self.start_time.is_none() {
            self.start_time = Some(now_ms);
        }
    }
}

/// Index of the first task of least stride in `s`.
pub open spec fn first_min_index(s: Seq<TaskControlBlock>) -> int
    decreases s.len(),
{
    if s.len() <= 1 {
        0
    } else {
        let k = first_min_index(s.drop_last());
        if s.last().stride < s[k].stride {
            s.len() - 1
        } else {
            k
        }
    }
}

/// Task `i` has the least stride of `s`, and every earlier one a larger stride.
pub open spec fn is_first_min(s: Seq<TaskControlBlock>, i: int) -> bool {
    &&& 0 <= i < s.len()
    &&& forall|j: int| 0 <= j < s.len() ==> s[i].stride <= #[trigger] s[j].stride
    &&& forall|j: int| 0 <= j < i ==> s[i].stride < #[trigger] s[j].stride
}

/// `first_min_index` picks the first task of least stride.
pub proof fn lemma_first_min_index(s: Seq<TaskControlBlock>)
    requires
        s.len() > 0,
    ensures
        is_first_min(s, first_min_index(s)),
    decreases s.len(),
{
    if s.len() > 1 {
        let t = s.drop_last();
        lemma_first_min_index(t);
        assert forall|j: int| 0 <= j < t.len() implies t[j] == s[j] by {}
    }
}

/// The tasks that fetching from a pool holding `s` hands out, in order,
/// until the pool is empty.
pub open spec fn drain(s: Seq<TaskControlBlock>) -> Seq<TaskControlBlock>
    decreases s.len(),
    via drain_decreases
{
    if s.len() == 0 {
        Seq::empty()
    } else {
        let i = first_min_index(s);
        seq![advanced(s[i])] + drain(s.remove(i))
    }
}

#[via_fn]
proof fn drain_decreases(s: Seq<TaskControlBlock>) {
    if s.len() > 0 {
        lemma_first_min_index(s);
    }
}

/// The identities of the tasks in `s`, in order.
pub open spec fn ids(s: Seq<TaskControlBlock>) -> Seq<usize> {
    s.map_values(|t: TaskControlBlock| t.id)
}

/// Fetching until the pool is empty hands out every task that was added,
/// each exactly once.
pub proof fn lemma_drain_returns_each_once(s: Seq<TaskControlBlock>)
    ensures
        drain(s).len() == s.len(),
        ids(drain(s)).to_multiset() == ids(s).to_multiset(),
    decreases s.len(),
{
    broadcast use vstd::multiset::group_multiset_axioms;

    if s.len() == 0 {
        assert(ids(drain(s)) =~= ids(s));
    } else {
        let i = first_min_index(s);
        lemma_first_min_index(s);
        let rest = s.remove(i);
        lemma_drain_returns_each_once(rest);
        let x = s[i].id;
        assert(ids(drain(s)) =~= ids(drain(rest)).insert(0, x));
        vstd::seq_lib::to_multiset_insert(ids(drain(rest)), 0, x);
        assert(ids(rest) =~= ids(s).remove(i));
        vstd::seq_lib::to_multiset_remove(ids(s), i);
        assert(ids(s).contains(x)) by {
            assert(ids(s)[i] == x);
        }
        vstd::seq_lib::to_multiset_contains(ids(s), x);
        assert(ids(drain(s)).to_multiset() =~= ids(s).to_multiset());
    }
}

/// Where every task has the same pass, the strides that fetching until the
/// pool is empty hands out never decrease.
pub proof fn lemma_drain_strides_nondecreasing(s: Seq<TaskControlBlock>, pass: u64)
    requires
        strides_fit(s),
        forall|k: int| 0 <= k < s.len() ==> #[trigger] s[k].pass == pass,
    ensures
        forall|k: int|
            0 <= k < drain(s).len() - 1 ==> #[trigger] drain(s)[k].stride <= drain(s)[k + 1].stride,
    decreases s.len(),
{
    lemma_drain_returns_each_once(s);
    if s.len() > 0 {
        let i = first_min_index(s);
        lemma_first_min_index(s);
        let rest = s.remove(i);
        assert forall|k: int| 0 <= k < rest.len() implies #[trigger] rest[k].pass == pass by {
            if k < i {
                assert(rest[k] == s[k]);
            } else {
                assert(rest[k] == s[k + 1]);
            }
        }
        lemma_drain_strides_nondecreasing(rest, pass);
        lemma_drain_returns_each_once(rest);
        let d = drain(s);
        assert(d =~= seq![advanced(s[i])] + drain(rest));
        if rest.len() > 0 {
            let j = first_min_index(rest);
            lemma_first_min_index(rest);
            assert(drain(rest)[0] == advanced(rest[j]));
            assert(s[i].stride <= rest[j].stride) by {
                if j < i {
                    assert(rest[j] == s[j]);
                } else {
                    assert(rest[j] == s[j + 1]);
                }
            }
            assert(d[1] == drain(rest)[0]);
        }
        assert forall|k: int| 0 <= k < d.len() - 1 implies #[trigger] d[k].stride <= d[k
            + 1].stride by {
            if k > 0 {
                assert(d[k] == drain(rest)[k - 1]);
                assert(d[k + 1] == drain(rest)[k]);
            }
        }
    }
}

/// One scheduling round on a pool holding `s`: the picked task runs and
/// goes back into the pool.
pub open spec fn cycle(s: Seq<TaskControlBlock>) -> Seq<TaskControlBlock> {
    let i = first_min_index(s);
    s.remove(i).push(advanced(s[i]))
}

/// Every task's stride exceeds every other's by at most its own pass.
pub open spec fn strides_within_pass(s: Seq<TaskControlBlock>) -> bool {
    forall|j: int, k: int|
        0 <= j < s.len() && 0 <= k < s.len() ==> #[trigger] s[j].stride <= #[trigger] s[k].stride
            + s[j].pass
}

/// A scheduling round keeps every task's stride within its own pass of
/// every other's, as long as the picked stride does not reach the top of
/// its range. So while a task waits in the pool, each other task can run
/// only until its stride passes the waiting one's: nobody starves.
pub proof fn lemma_cycle_keeps_strides_within_pass(s: Seq<TaskControlBlock>)
    requires
        s.len() > 0,
        strides_within_pass(s),
        forall|j: int| 0 <= j < s.len() ==> #[trigger] s[j].stride + s[j].pass <= u128::MAX,
    ensures
        cycle(s).len() == s.len(),
        strides_within_pass(cycle(s)),
{
    lemma_first_min_index(s);
    let i = first_min_index(s);
    let c = cycle(s);
    let n = s.len() as int;
    assert forall|j: int| 0 <= j < n implies #[trigger] c[j] == if j == n - 1 {
        advanced(s[i])
    } else if j < i {
        s[j]
    } else {
        s[j + 1]
    } by {}
    assert forall|j: int, k: int|
        0 <= j < c.len() && 0 <= k < c.len() implies #[trigger] c[j].stride <= #[trigger] c[k].stride
        + c[j].pass by {
        let sj = if j == n - 1 { i } else if j < i { j } else { j + 1 };
        let sk = if k == n - 1 { i } else if k < i { k } else { k + 1 };
        assert(s[sj].stride <= s[sk].stride + s[sj].pass);
        assert(s[i].stride <= s[sk].stride);
        assert(s[sk].stride <= s[i].stride + s[sk].pass);
    }
}

/// The pool after `n` scheduling rounds from `s`.
pub open spec fn rounds(s: Seq<TaskControlBlock>, n: nat) -> Seq<TaskControlBlock>
    decreases n,
{
    if n == 0 {
        s
    } else {
        cycle(rounds(s, (n - 1) as nat))
    }
}

/// `t` after it has been picked `k` times, each time its stride advanced
/// by its pass.
pub open spec fn after_runs(t: TaskControlBlock, k: nat) -> TaskControlBlock {
    TaskControlBlock { stride: (t.stride + k * t.pass) as u128, ..t }
}

/// Two tasks that start at equal strides and go back into the pool after
/// they run share `n` rounds by their passes. The first is picked `k.0`
/// times and the second `k.1` times, `k.0 + k.1 == n`, the pool then
/// holds the two tasks advanced that often, and `k * pass` of each exceeds
/// that of the other by at most its own pass. So the counts tend to the
/// inverse ratio of the passes, and from two rounds on the task with the
/// smaller pass has run at least as often. No stride may reach the top of
/// its range within the `n` rounds.
pub proof fn lemma_rounds_share_by_pass(s: Seq<TaskControlBlock>, n: nat) -> (k: (nat, nat))
    requires
        s.len() == 2,
        s[0].stride == s[1].stride,
        s[0].stride + n * s[0].pass <= u128::MAX,
        s[1].stride + n * s[1].pass <= u128::MAX,
    ensures
        k.0 + k.1 == n,
        rounds(s, n) == seq![after_runs(s[0], k.0), after_runs(s[1], k.1)] || rounds(s, n)
            == seq![after_runs(s[1], k.1), after_runs(s[0], k.0)],
        k.0 * s[0].pass <= k.1 * s[1].pass + s[0].pass,
        k.1 * s[1].pass <= k.0 * s[0].pass + s[1].pass,
        s[0].pass < s[1].pass && n >= 2 ==> k.0 >= k.1,
        s[1].pass < s[0].pass && n >= 2 ==> k.1 >= k.0,
    decreases n,
{
    let p0 = s[0].pass;
    let p1 = s[1].pass;
    let b = s[0].stride;
    if n == 0 {
        assert(after_runs(s[0], 0) == s[0]);
        assert(after_runs(s[1], 0) == s[1]);
        assert(rounds(s, 0) =~= seq![after_runs(s[0], 0), after_runs(s[1], 0)]);
        (0, 0)
    } else {
        let m = (n - 1) as nat;
        assert(m * p0 <= n * p0 && m * p1 <= n * p1) by (nonlinear_arith)
            requires
                m <= n,
        ;
        let k = lemma_rounds_share_by_pass(s, m);
        let (k0, k1) = k;
        assert((k0 + 1) * p0 == k0 * p0 + p0 && (k1 + 1) * p1 == k1 * p1 + p1)
            by (nonlinear_arith);
        assert((k0 + 1) * p0 <= n * p0) by (nonlinear_arith)
            requires
                k0 + 1 <= n,
        ;
        assert((k1 + 1) * p1 <= n * p1) by (nonlinear_arith)
            requires
                k1 + 1 <= n,
        ;
        let x = after_runs(s[0], k0);
        let y = after_runs(s[1], k1);
        let c = rounds(s, m);
        assert(x.stride == b + k0 * p0 && y.stride == b + k1 * p1);
        assert(advanced(x) == after_runs(s[0], k0 + 1));
        assert(advanced(y) == after_runs(s[1], k1 + 1));
        lemma_first_min_index(c);
        let i = first_min_index(c);
        let d = cycle(c);
        assert(rounds(s, n) == d);
        let picked_first = (c == seq![x, y] && i == 0) || (c == seq![y, x] && i == 1);
        let r: (nat, nat) = if picked_first {
            assert(x.stride <= y.stride);
            if i == 0 {
                assert(d =~= seq![y, after_runs(s[0], k0 + 1)]);
            } else {
                assert(d =~= seq![y, after_runs(s[0], k0 + 1)]);
            }
            (k0 + 1, k1)
        } else {
            assert(y.stride <= x.stride);
            if c == seq![x, y] {
                assert(d =~= seq![x, after_runs(s[1], k1 + 1)]);
            } else {
                assert(d =~= seq![x, after_runs(s[1], k1 + 1)]);
            }
            (k0, k1 + 1)
        };
        if p0 < p1 && n >= 2 && r.1 >= 2 {
            assert(r.0 >= r.1) by (nonlinear_arith)
                requires
                    r.1 * p1 <= r.0 * p0 + p1,
                    p0 < p1,
                    r.1 >= 2,
            ;
        }
        if p1 < p0 && n >= 2 && r.0 >= 2 {
            assert(r.1 >= r.0) by (nonlinear_arith)
                requires
                    r.0 * p0 <= r.1 * p1 + p0,
                    p1 < p0,
                    r.0 >= 2,
            ;
        }
        r
    }
}

/// The ready pool of tasks that may run next.
pub struct TaskManager {
    ready_vec: Vec<TaskControlBlock>,
}

impl TaskManager {
    /// The ready tasks, in the order they were added.
    pub closed spec fn ready(&self) -> Seq<TaskControlBlock> {
        self.ready_vec@
    }

    /// Every task in the pool is ready and has a positive pass.
    pub open spec fn wf(&self) -> bool {
        forall|j: int|
            0 <= j < self.ready().len() ==> (#[trigger] self.ready()[j]).status == TaskStatus::Ready
                && self.ready()[j].pass > 0
    }

    /// An empty pool.
    pub fn new() -> (r: TaskManager)
        ensures
            r.wf(),
            r.ready() == Seq::<TaskControlBlock>::empty(),
    {
        TaskManager { ready_vec: Vec::new() }
    }

    /// Every ready task's stride can take one more pass.
    pub fn strides_fit(&self) -> (r: bool)
        ensures
            r == strides_fit(self.ready()),
    {
        let mut j: usize = 0;
        while j < self.ready_vec.len()
            invariant
                j <= self.ready_vec@.len(),
                forall|q: int| 0 <= q < j ==> #[trigger] self.ready_vec@[q].stride
                    + self.ready_vec@[q].pass <= u128::MAX,
            decreases self.ready_vec@.len() - j,
        {
            let t = &self.ready_vec[j];
            if t.stride > u128::MAX - t.pass as u128 {
                assert(!strides_fit(self.ready()));
                return false;
            }
            j = j + 1;
        }
        true
    }

    /// Number of ready tasks.
    pub fn len(&self) -> (r: usize)
        ensures
            r == self.ready().len(),
    {
        self.ready_vec.len()
    }

    /// Puts a task into the pool.
    pub fn add(&mut self, task: TaskControlBlock)
        requires
            old(self).wf(),
            task.status == TaskStatus::Ready,
            task.pass > 0,
        ensures
            final(self).wf(),
            final(self).ready() == old(self).ready().push(task),
    {
        self.ready_vec.push(task);
    }

    /// Takes out the first task of least stride, its stride advanced by its
    /// pass; `None` when the pool is empty.
    pub fn fetch(&mut self) -> (r: Option<TaskControlBlock>)
        requires
            old(self).wf(),
            strides_fit(old(self).ready()),
        ensures
            final(self).wf(),
            r is Some ==> r->0.status == TaskStatus::Ready && r->0.pass > 0,
            r is Some ==> r->0.stride > old(self).ready()[first_min_index(old(self).ready())].stride,
            r is None <==> old(self).ready().len() == 0,
            r is None ==> final(self).ready() == old(self).ready(),
            r is Some ==> {
                let i = first_min_index(old(self).ready());
                &&& is_first_min(old(self).ready(), i)
                &&& final(self).ready() == old(self).ready().remove(i)
                &&& r->0 == advanced(old(self).ready()[i])
                &&& drain(old(self).ready()) == seq![r->0] + drain(final(self).ready())
            },
    {
        let n = self.ready_vec.len();
        if n == 0 {
            return None;
        }
        let mut best: usize = 0;
        let mut i: usize = 1;
        while i < n
            invariant
                n == self.ready_vec@.len(),
                1 <= i <= n,
                best == first_min_index(self.ready_vec@.subrange(0, i as int)),
                best < i,
            decreases n - i,
        {
            let ghost pre = self.ready_vec@.subrange(0, i as int);
            let ghost next = self.ready_vec@.subrange(0, i + 1);
            proof {
                assert(next.drop_last() =~= pre);
                assert(next[best as int] == self.ready_vec@[best as int]);
            }
            if self.ready_vec[i].stride < self.ready_vec[best].stride {
                best = i;
            }
            i = i + 1;
        }
        proof {
            assert(self.ready_vec@.subrange(0, n as int) =~= self.ready_vec@);
            lemma_first_min_index(self.ready_vec@);
        }
        let mut task = self.ready_vec.remove(best);
        task.stride = task.stride + task.pass as u128;
        Some(task)
    }
}

/// Puts `task` into the ready pool of `manager`.
pub fn add_task(manager: &mut TaskManager, task: TaskControlBlock)
    requires
        old(manager).wf(),
        task.status == TaskStatus::Ready,
        task.pass > 0,
    ensures
        final(manager).wf(),
        final(manager).ready() == old(manager).ready().push(task),
{
    manager.add(task);
}

/// Takes the next task to run out of the ready pool of `manager`.
pub fn fetch_task(manager: &mut TaskManager) -> (r: Option<TaskControlBlock>)
    requires
        old(manager).wf(),
        strides_fit(old(manager).ready()),
    ensures
        final(manager).wf(),
        r is None <==> old(manager).ready().len() == 0,
        r is None ==> final(manager).ready() == old(manager).ready(),
        r is Some ==> {
            let i = first_min_index(old(manager).ready());
            &&& is_first_min(old(manager).ready(), i)
            &&& final(manager).ready() == old(manager).ready().remove(i)
            &&& r->0 == advanced(old(manager).ready()[i])
            &&& drain(old(manager).ready()) == seq![r->0] + drain(final(manager).ready())
        },
{
    manager.fetch()
}

/// Takes the next task to run out of the pool and hands it the processor
/// at time `now_ms`; `None` when the pool is empty.
pub fn dispatch_next(manager: &mut TaskManager, now_ms: usize) -> (r: Option<TaskControlBlock>)
    requires
        old(manager).wf(),
        strides_fit(old(manager).ready()),
    ensures
        final(manager).wf(),
        r is None <==> old(manager).ready().len() == 0,
        r is None ==> final(manager).ready() == old(manager).ready(),
        r is Some ==> {
            let i = first_min_index(old(manager).ready());
            &&& is_first_min(old(manager).ready(), i)
            &&& final(manager).ready() == old(manager).ready().remove(i)
            &&& r->0 == dispatched(advanced(old(manager).ready()[i]), now_ms)
        },
{
    match manager.fetch() {
        Some(mut t) => {
            t.mark_dispatched(now_ms);
            Some(t)
        },
        None => None,
    }
}

/// The running `task` gives up the processor: it goes back into the pool
/// as ready, and the task that `fetch` picks from the pool with it added
/// (possibly `task` itself) is dispatched at time `now_ms`.
pub fn suspend_current_and_run_next(
    manager: &mut TaskManager,
    task: TaskControlBlock,
    now_ms: usize,
) -> (r: TaskControlBlock)
    requires
        old(manager).wf(),
        task.pass > 0,
        strides_fit(old(manager).ready().push(task)),
    ensures
        final(manager).wf(),
        ({
            let pool = old(manager).ready().push(readied(task));
            let i = first_min_index(pool);
            &&& is_first_min(pool, i)
            &&& final(manager).ready() == pool.remove(i)
            &&& r == dispatched(advanced(pool[i]), now_ms)
        }),
{
    let mut t = task;
    t.status = TaskStatus::Ready;
    manager.add(t);
    proof {
        let pushed = old(manager).ready().push(task);
        assert forall|j: int| 0 <= j < manager.ready().len() implies #[trigger] manager.ready()[j].stride
            + manager.ready()[j].pass <= u128::MAX by {
            assert(pushed[j].stride + pushed[j].pass <= u128::MAX);
        }
    }
    dispatch_next(manager, now_ms).unwrap()
}

} // verus!
