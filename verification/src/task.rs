//! Tasks and the scheduler's decisions: the table of tasks, the run queue,
//! the sleep queue ordered by wake-up time, and the clock in ticks.
//!
//! The switch of CPU context itself is done by the caller: the functions here
//! update the scheduler's state and say which task must run next.
use vstd::prelude::*;
use std::collections::VecDeque;

verus! {

/// How long a task runs before it is preempted, in ticks (1 ms).
pub const TASK_RUN_TIME: usize = 10;

/// The size of a task's kernel stack.
pub const KERNEL_STACK_SIZE: usize = 0x1_0000;

/// An open file of a task.
#[derive(Debug)]
pub struct FileDescriptor {}

/// What a task is doing.
#[derive(Debug, Copy, Clone, PartialEq, Eq, Structural)]
pub enum TaskState {
    Running,
    Blocked,
    Ready,
    Terminated,
}

/// What the scheduler keeps of a task.
#[derive(Debug, Copy, Clone)]
pub struct Task {
    /// The saved stack pointer of the task's kernel stack.
    pub kernel_stack: usize,
    /// The lowest address of the task's kernel stack.
    pub kernel_stack_base: usize,
    /// The stack pointer the task's kernel stack starts from on entering the kernel.
    pub kernel_stack_start: usize,
    /// The top of the task's user stack; zero for a kernel task.
    pub user_stack: usize,
    /// The lowest address of the task's user stack; zero for a kernel task.
    pub user_stack_base: usize,
    /// The tick until which the task may run.
    pub time: usize,
    /// The core the task last ran on.
    pub core: usize,
    /// The task's number.
    pub id: usize,
    /// What the task is doing.
    pub state: TaskState,
    /// `FLAG_KERNEL`, `FLAG_IDLE`.
    pub flags: u32,
}

pub const FLAG_KERNEL: u32 = 1;
pub const FLAG_IDLE: u32 = 2;

/// The number of callee-saved registers a task switch pushes on the kernel stack.
pub const CALLEE_SAVED_REGS: usize = 6;
/// The number of words a new kernel stack starts with above the saved registers.
pub const STACK_INIT_VALUES: usize = 4;

/// A new kernel stack of `words` words: the index of the word the task's stack pointer starts
/// at, room for the callee-saved registers above it, and the four words above those: the
/// argument and the address of the task's function (both zero for the idle task, which has
/// none), the address of `underflow`, called should the function return, and a zero.
pub fn kernel_stack_layout(words: usize, entry: Option<(usize, usize)>, underflow: usize) -> (r: (
    usize,
    [usize; 4],
))
    requires
        words >= CALLEE_SAVED_REGS + STACK_INIT_VALUES,
    ensures
        r.0 == words - (CALLEE_SAVED_REGS + STACK_INIT_VALUES),
        r.1[0] == (match entry {
            Some(e) => e.1,
            None => 0,
        }),
        r.1[1] == (match entry {
            Some(e) => e.0,
            None => 0,
        }),
        r.1[2] == underflow,
        r.1[3] == 0,
{
    let (func, param) = match entry {
        Some(e) => e,
        None => (0, 0),
    };
    (words - (CALLEE_SAVED_REGS + STACK_INIT_VALUES), [param, func, underflow, 0])
}

/// The mapping flags of page `i` of a stack: the lowest page is read-only, to catch an
/// overflow, the others writable; user accessible for a user stack.
pub open spec fn stack_flag(i: int, user: bool) -> u64 {
    (if i == 0 {
        crate::memory::FLAGS_DEFAULT_RO
    } else {
        crate::memory::FLAGS_DEFAULT_RW
    }) | (if user {
        crate::memory::FLAG_USER
    } else {
        0
    })
}

/// The mapping flags of page `i` of a stack.
pub fn stack_page_flags(i: usize, user: bool) -> (r: u64)
    ensures
        r == stack_flag(i as int, user),
{
    let base = if i == 0 {
        crate::memory::FLAGS_DEFAULT_RO
    } else {
        crate::memory::FLAGS_DEFAULT_RW
    };
    if user {
        base | crate::memory::FLAG_USER
    } else {
        base | 0
    }
}

/// The mapping flags of each of the `pages` pages of a stack.
pub fn stack_flags(pages: usize, user: bool) -> (r: Vec<u64>)
    ensures
        r@ == Seq::new(pages as nat, |i: int| stack_flag(i, user)),
{
    let mut out: Vec<u64> = Vec::new();
    let mut i: usize = 0;
    while i < pages
        invariant
            i <= pages,
            out@ == Seq::new(i as nat, |j: int| stack_flag(j, user)),
        decreases pages - i,
    {
        out.push(stack_page_flags(i, user));
        proof {
            assert(out@ =~= Seq::new((i + 1) as nat, |j: int| stack_flag(j, user)));
        }
        i = i + 1;
    }
    out
}

/// How a new kernel stack of `size` bytes at `base` is laid out: its number of pages, the
/// mapping flags of each page (the lowest read-only, as a guard), the stack pointer the task
/// starts from, and the four words that go just above the callee-saved registers there (see
/// `kernel_stack_layout`).
pub struct KernelStackPlan {
    pub pages: usize,
    pub flags: Vec<u64>,
    pub top: usize,
    pub init: [usize; 4],
}

/// The plan of a new kernel stack of `size` bytes whose lowest address is `base`, for a task
/// that runs `entry` (its function and argument; none for the idle task); `underflow` is
/// called should the function return.
pub fn kernel_stack_plan(size: usize, base: usize, entry: Option<(usize, usize)>, underflow: usize) -> (r:
    KernelStackPlan)
    requires
        size / 8 >= CALLEE_SAVED_REGS + STACK_INIT_VALUES,
        size + 4095 <= usize::MAX,
        base + size <= usize::MAX,
    ensures
        r.pages == (size + 4095) / 4096,
        r.flags@ == Seq::new(r.pages as nat, |i: int| stack_flag(i, false)),
        r.top == base + 8 * (size / 8 - (CALLEE_SAVED_REGS + STACK_INIT_VALUES)),
        r.init[0] == (match entry {
            Some(e) => e.1,
            None => 0,
        }),
        r.init[1] == (match entry {
            Some(e) => e.0,
            None => 0,
        }),
        r.init[2] == underflow,
        r.init[3] == 0,
{
    let pages = crate::memory::address::page_count_up(size);
    let flags = stack_flags(pages, false);
    let (word, init) = kernel_stack_layout(size / 8, entry, underflow);
    proof {
        assert(8 * word <= size) by (nonlinear_arith)
            requires
                word <= size / 8,
        ;
    }
    KernelStackPlan { pages, flags, top: base + 8 * word, init }
}

/// The top and the base of a user stack of `size` bytes, rounded up to whole pages, placed
/// at `base`.
pub fn user_stack_bounds(base: usize, size: usize) -> (r: (usize, usize))
    requires
        size + 4095 <= usize::MAX,
        base + crate::memory::address::round_up(size as int, 4096) <= usize::MAX,
    ensures
        r.0 == base + crate::memory::address::round_up(size as int, 4096),
        r.1 == base,
{
    let size = crate::memory::address::page_align_up(size);
    (base + size, base)
}

impl Task {
    /// A kernel task ready to run on the kernel stack whose stack pointer is `kernel_stack` and
    /// whose lowest address is `kernel_stack_base`; the idle task when `is_idle`.
    pub fn new_kernel(kernel_stack: usize, kernel_stack_base: usize, is_idle: bool) -> (r: Self)
        ensures
            r.kernel_stack == kernel_stack,
            r.kernel_stack_base == kernel_stack_base,
            r.kernel_stack_start == kernel_stack,
            r.user_stack == 0,
            r.user_stack_base == 0,
            r.time == 0,
            r.core == 0,
            r.id == 0,
            r.state == TaskState::Ready,
            r.flags == FLAG_KERNEL | (if is_idle {
                FLAG_IDLE
            } else {
                0
            }),
    {
        Task {
            kernel_stack,
            kernel_stack_base,
            kernel_stack_start: kernel_stack,
            user_stack: 0,
            user_stack_base: 0,
            time: 0,
            core: 0,
            id: 0,
            state: TaskState::Ready,
            flags: FLAG_KERNEL | if is_idle {
                FLAG_IDLE
            } else {
                0
            },
        }
    }

    /// A user task ready to run, with its kernel stack and its user stack.
    pub fn new_user(
        kernel_stack: usize,
        kernel_stack_base: usize,
        user_stack: usize,
        user_stack_base: usize,
    ) -> (r: Self)
        ensures
            r.kernel_stack == kernel_stack,
            r.kernel_stack_base == kernel_stack_base,
            r.kernel_stack_start == kernel_stack,
            r.user_stack == user_stack,
            r.user_stack_base == user_stack_base,
            r.time == 0,
            r.core == 0,
            r.id == 0,
            r.state == TaskState::Ready,
            r.flags == 0,
    {
        Task {
            kernel_stack,
            kernel_stack_base,
            kernel_stack_start: kernel_stack,
            user_stack,
            user_stack_base,
            time: 0,
            core: 0,
            id: 0,
            state: TaskState::Ready,
            flags: 0,
        }
    }
}

/// Before task `task` runs on core `core`: the processor's kernel stack for entries from
/// user mode becomes the task's, and the task records the core.
pub fn prepare_task_switch(task: &mut Task, tss: &mut crate::gdt::Tss, core: usize)
    ensures
        *final(task) == (Task { core, ..*old(task) }),
        final(tss).rsp@ == old(tss).rsp@.update(0, old(task).kernel_stack_start as u64),
        final(tss).ist == old(tss).ist,
        final(tss).iopb == old(tss).iopb,
{
    crate::gdt::tss_set_kernel_stack(tss, task.kernel_stack_start as u64);
    task.core = core;
}

/// A sequence of at least one item that keeps its first item inline.
#[derive(Debug)]
pub struct ShortVec<T> {
    first: T,
    rest: Option<Vec<T>>,
}

impl<T> ShortVec<T> {
    /// The items, in order.
    pub closed spec fn view(&self) -> Seq<T> {
        match self.rest {
            Some(v) => seq![self.first] + v@,
            None => seq![self.first],
        }
    }

    /// The sequence holding just `item`.
    pub fn new(item: T) -> (r: Self)
        ensures
            r.view() == seq![item],
    {
        ShortVec { first: item, rest: None }
    }

    /// Appends `item`.
    pub fn push(&mut self, item: T)
        ensures
            final(self).view() == old(self).view().push(item),
    {
        let mut rest = match self.rest.take() {
            Some(v) => v,
            None => Vec::new(),
        };
        rest.push(item);
        self.rest = Some(rest);
        proof {
            assert(self.view() =~= old(self).view().push(item));
        }
    }

    /// Appends the items to the back of `queue`, in order.
    pub fn extend_to(self, queue: &mut VecDeque<T>)
        ensures
            final(queue)@ == old(queue)@ + self.view(),
    {
        let ghost items = self.view();
        queue.push_back(self.first);
        if let Some(rest) = self.rest {
            let ghost q1 = queue@;
            let mut rest = rest;
            let ghost all = rest@;
            proof {
                assert(all.skip(0) =~= all);
                assert(all.take(0) =~= Seq::<T>::empty());
                assert(q1 =~= q1 + all.take(0));
            }
            let mut i: usize = 0;
            let n = rest.len();
            while i < n
                invariant
                    0 <= i <= n,
                    n == all.len(),
                    rest@ == all.skip(i as int),
                    queue@ == q1 + all.take(i as int),
                decreases n - i,
            {
                let x = rest.remove(0);
                queue.push_back(x);
                proof {
                    assert(all.take(i + 1) =~= all.take(i as int).push(x));
                    assert(all.skip(i + 1) =~= all.skip(i as int).remove(0));
                }
                i = i + 1;
            }
            proof {
                assert(all.take(n as int) =~= all);
                assert(queue@ =~= old(queue)@ + items);
            }
        } else {
            proof {
                assert(queue@ =~= old(queue)@ + items);
            }
        }
    }
}

/// The tasks and the queues, as the scheduler's contracts see them.
pub ghost struct SchedView {
    /// The table of tasks; an empty slot is `None`.
    pub tasks: Seq<Option<Task>>,
    /// The tasks ready to run, in order.
    pub run: Seq<usize>,
    /// The sleeping tasks by wake-up tick, in increasing order of tick.
    pub sleep: Seq<(usize, Seq<usize>)>,
    /// The clock, in ticks.
    pub time: usize,
    /// The task running now (`usize::MAX` before the first one).
    pub current: usize,
    /// The task to run when no other is ready.
    pub idle: usize,
    /// Whether the per-core data holding the current task is set up.
    pub started: bool,
}

/// The tasks of the sleep entries due at tick `now` or before, in order, and the entries left.
pub open spec fn wake(sleep: Seq<(usize, Seq<usize>)>, now: int) -> (Seq<usize>, Seq<(usize, Seq<usize>)>)
    decreases sleep.len(),
{
    if sleep.len() == 0 || sleep[0].0 > now {
        (Seq::empty(), sleep)
    } else {
        let (d, r) = wake(sleep.drop_first(), now);
        (sleep[0].1 + d, r)
    }
}

/// The sleep entries with task `id` added at tick `k`: to the entry of that tick if there is
/// one, else in a new entry kept in order.
pub open spec fn sleep_insert(sleep: Seq<(usize, Seq<usize>)>, k: usize, id: usize) -> Seq<(usize, Seq<usize>)>
    decreases sleep.len(),
{
    if sleep.len() == 0 {
        seq![(k, seq![id])]
    } else if sleep[0].0 == k {
        seq![(k, sleep[0].1.push(id))] + sleep.drop_first()
    } else if sleep[0].0 > k {
        seq![(k, seq![id])] + sleep
    } else {
        seq![sleep[0]] + sleep_insert(sleep.drop_first(), k, id)
    }
}

/// The sleep entries are in strictly increasing order of tick.
pub open spec fn sleep_sorted(sleep: Seq<(usize, Seq<usize>)>) -> bool {
    forall|i: int, j: int| 0 <= i < j < sleep.len() ==> #[trigger] sleep[i].0 < #[trigger] sleep[j].0
}

/// A switch to task `next` does not fail.
pub open spec fn switch_ok(v: SchedView, next: usize) -> bool {
    next != v.current ==> {
        &&& v.current < v.tasks.len() && v.tasks[v.current as int] is Some
        &&& next < v.tasks.len() && v.tasks[next as int] is Some
        &&& v.time + TASK_RUN_TIME <= usize::MAX
    }
}

/// The state after switching to task `next`: it runs until `TASK_RUN_TIME` ticks from now.
pub open spec fn switch_spec(v: SchedView, next: usize) -> SchedView {
    if next == v.current {
        v
    } else {
        let t = v.tasks[next as int]->0;
        SchedView {
            tasks: v.tasks.update(
                next as int,
                Some(Task { time: (v.time + TASK_RUN_TIME) as usize, state: TaskState::Running, ..t }),
            ),
            current: next,
            ..v
        }
    }
}

/// The state after waking the due sleepers: they join the back of the run queue.
pub open spec fn woken(v: SchedView) -> SchedView {
    SchedView { run: v.run + wake(v.sleep, v.time as int).0, sleep: wake(v.sleep, v.time as int).1, ..v }
}

/// Waking at tick `now` takes the due entries of the sleep queue, the first `k` when the
/// first `k` are due and the rest are not: their tasks, entry after entry in order of
/// wake-up tick and in each entry in the order they went to sleep, wake; the later entries
/// stay asleep.
pub proof fn lemma_wake_due_prefix(sleep: Seq<(usize, Seq<usize>)>, now: int, k: int)
    requires
        0 <= k <= sleep.len(),
        forall|i: int| 0 <= i < k ==> #[trigger] sleep[i].0 <= now,
        k < sleep.len() ==> sleep[k].0 > now,
    ensures
        wake(sleep, now).0 == sleep.take(k).map_values(|e: (usize, Seq<usize>)| e.1).flatten(),
        wake(sleep, now).1 == sleep.skip(k),
    decreases k,
{
    let f = |e: (usize, Seq<usize>)| e.1;
    if k == 0 {
        assert(sleep.skip(0) =~= sleep);
        assert(sleep.take(0).map_values(f) =~= Seq::<Seq<usize>>::empty());
    } else {
        let rest = sleep.drop_first();
        assert forall|i: int| 0 <= i < k - 1 implies #[trigger] rest[i].0 <= now by {
            assert(rest[i] == sleep[i + 1]);
        }
        if k - 1 < rest.len() {
            assert(rest[k - 1] == sleep[k]);
        }
        lemma_wake_due_prefix(rest, now, k - 1);
        assert(rest.skip(k - 1) =~= sleep.skip(k));
        let m = sleep.take(k).map_values(f);
        assert(m.drop_first() =~= rest.take(k - 1).map_values(f));
        assert(m.first() == sleep[0].1);
    }
}

/// Woken sleepers go behind the ready tasks: after waking, the run queue is the old run queue,
/// in order, followed by the due sleepers in wake-up order; so a task that was ready runs
/// before any task that has just woken, and with a task ready, the one picked next is the
/// head of the old run queue. After a yield the run queue is the rest of the old one, then the
/// woken tasks, then the task that yielded.
pub proof fn lemma_ready_before_woken(v: SchedView, to_run_queue: bool)
    ensures
        woken(v).run.len() == v.run.len() + wake(v.sleep, v.time as int).0.len(),
        woken(v).run.subrange(0, v.run.len() as int) == v.run,
        woken(v).run.subrange(v.run.len() as int, woken(v).run.len() as int) == wake(v.sleep, v.time as int).0,
        v.run.len() > 0 ==> next_spec(v, to_run_queue).1 == Some(v.run[0]),
        v.run.len() > 0 ==> next_spec(v, true).0.run == v.run.drop_first() + wake(v.sleep, v.time as int).0
            + seq![v.current],
{
    let w = woken(v);
    assert(w.run.subrange(0, v.run.len() as int) =~= v.run);
    assert(w.run.subrange(v.run.len() as int, w.run.len() as int) =~= wake(v.sleep, v.time as int).0);
    if v.run.len() > 0 {
        assert(w.run.drop_first() =~= v.run.drop_first() + wake(v.sleep, v.time as int).0);
    }
}

/// The task the scheduler picks after waking the sleepers: the head of the run queue, else
/// none when the current task goes back to the queue, else the idle task.
pub open spec fn pick(v: SchedView, to_run_queue: bool) -> Option<usize> {
    let w = woken(v);
    if w.run.len() > 0 {
        Some(w.run[0])
    } else if to_run_queue {
        None
    } else {
        Some(v.idle)
    }
}

/// Picking the next task does not fail.
pub open spec fn next_ok(v: SchedView, to_run_queue: bool) -> bool {
    let w = woken(v);
    match pick(v, to_run_queue) {
        Some(n) => switch_ok(
            SchedView {
                run: if w.run.len() > 0 {
                    w.run.drop_first() + if to_run_queue {
                        seq![v.current]
                    } else {
                        Seq::empty()
                    }
                } else {
                    w.run
                },
                ..w
            },
            n,
        ),
        None => true,
    }
}

/// What picking the next task does: wake the due sleepers, take the head of the run queue
/// (putting the current task at the back when `to_run_queue`) and switch to it; with an
/// empty queue, keep running when `to_run_queue`, else switch to the idle task.
pub open spec fn next_spec(v: SchedView, to_run_queue: bool) -> (SchedView, Option<usize>) {
    let w = woken(v);
    if w.run.len() > 0 {
        let n = w.run[0];
        let w2 = SchedView {
            run: w.run.drop_first() + if to_run_queue {
                seq![v.current]
            } else {
                Seq::empty()
            },
            ..w
        };
        (switch_spec(w2, n), Some(n))
    } else if to_run_queue {
        (w, None)
    } else {
        (switch_spec(w, v.idle), Some(v.idle))
    }
}

/// The state with the current task marked `state`.
pub open spec fn mark_current(v: SchedView, state: TaskState) -> SchedView {
    let t = v.tasks[v.current as int]->0;
    SchedView { tasks: v.tasks.update(v.current as int, Some(Task { state, ..t })), ..v }
}

/// The current task is a task of the table.
pub open spec fn current_ok(v: SchedView) -> bool {
    v.current < v.tasks.len() && v.tasks[v.current as int] is Some
}

/// The table of tasks and the queues.
pub struct Tasks {
    tasks: Vec<Option<Task>>,
    run_queue: VecDeque<usize>,
    sleep_queue: Vec<(usize, ShortVec<usize>)>,
}

impl Tasks {
    /// The table of tasks.
    pub closed spec fn spec_tasks(&self) -> Seq<Option<Task>> {
        self.tasks@
    }

    /// The run queue.
    pub closed spec fn spec_run(&self) -> Seq<usize> {
        self.run_queue@
    }

    /// The sleep queue.
    pub closed spec fn spec_sleep(&self) -> Seq<(usize, Seq<usize>)> {
        self.sleep_queue@.map_values(|e: (usize, ShortVec<usize>)| (e.0, e.1.view()))
    }

    /// No task, and empty queues.
    pub fn new() -> (r: Self)
        ensures
            r.spec_tasks().len() == 0,
            r.spec_run().len() == 0,
            r.spec_sleep().len() == 0,
    {
        let r = Tasks { tasks: Vec::new(), run_queue: VecDeque::new(), sleep_queue: Vec::new() };
        proof {
            assert(r.spec_sleep() =~= Seq::<(usize, Seq<usize>)>::empty());
        }
        r
    }

    /// The task with number `id`, if there is one.
    pub fn get(&self, id: usize) -> (r: Option<Task>)
        ensures
            r == (if id < self.spec_tasks().len() {
                self.spec_tasks()[id as int]
            } else {
                None
            }),
    {
        if id < self.tasks.len() {
            self.tasks[id]
        } else {
            None
        }
    }

    /// Puts `task` into the first empty slot of the table, or at its end, numbers it after its
    /// slot, and returns that number.
    pub fn insert(&mut self, task: Task) -> (r: usize)
        requires
            old(self).spec_tasks().len() < usize::MAX,
        ensures
            r <= old(self).spec_tasks().len(),
            forall|i: int| 0 <= i < r ==> old(self).spec_tasks()[i] is Some,
            r < old(self).spec_tasks().len() ==> old(self).spec_tasks()[r as int] is None
                && final(self).spec_tasks() == old(self).spec_tasks().update(
                r as int,
                Some(Task { id: r, ..task }),
            ),
            r == old(self).spec_tasks().len() ==> final(self).spec_tasks() == old(
                self,
            ).spec_tasks().push(Some(Task { id: r, ..task })),
            final(self).spec_run() == old(self).spec_run(),
            final(self).spec_sleep() == old(self).spec_sleep(),
    {
        let mut i: usize = 0;
        let n = self.tasks.len();
        while i < n
            invariant
                i <= n,
                n == self.tasks@.len(),
                self.tasks@ == old(self).tasks@,
                self.run_queue@ == old(self).run_queue@,
                self.sleep_queue@ == old(self).sleep_queue@,
                forall|j: int| 0 <= j < i ==> self.tasks@[j] is Some,
            decreases n - i,
        {
            if self.tasks[i].is_none() {
                let mut t = task;
                t.id = i;
                self.tasks.set(i, Some(t));
                return i;
            }
            i = i + 1;
        }
        let mut t = task;
        t.id = n;
        self.tasks.push(Some(t));
        n
    }

    /// Puts `task` into the table and, when `add_to_run_queue`, at the back of the run queue;
    /// returns its number.
    pub fn add_to_tasks(&mut self, task: Task, add_to_run_queue: bool) -> (r: usize)
        requires
            old(self).spec_tasks().len() < usize::MAX,
        ensures
            r <= old(self).spec_tasks().len(),
            forall|i: int| 0 <= i < r ==> old(self).spec_tasks()[i] is Some,
            r < old(self).spec_tasks().len() ==> old(self).spec_tasks()[r as int] is None
                && final(self).spec_tasks() == old(self).spec_tasks().update(
                r as int,
                Some(Task { id: r, ..task }),
            ),
            r == old(self).spec_tasks().len() ==> final(self).spec_tasks() == old(
                self,
            ).spec_tasks().push(Some(Task { id: r, ..task })),
            final(self).spec_run() == if add_to_run_queue {
                old(self).spec_run().push(r)
            } else {
                old(self).spec_run()
            },
            final(self).spec_sleep() == old(self).spec_sleep(),
    {
        let id = self.insert(task);
        if add_to_run_queue {
            self.run_queue.push_back(id);
        }
        id
    }
}

/// The scheduler: the tasks, the clock and the task running now.
pub struct Scheduler {
    tasks: Tasks,
    time: usize,
    current: usize,
    idle: usize,
    started: bool,
}

impl Scheduler {
    /// The scheduler's state.
    pub closed spec fn view(&self) -> SchedView {
        SchedView {
            tasks: self.tasks.spec_tasks(),
            run: self.tasks.spec_run(),
            sleep: self.tasks.spec_sleep(),
            time: self.time,
            current: self.current,
            idle: self.idle,
            started: self.started,
        }
    }

    /// The sleep queue is in order.
    pub closed spec fn wf(&self) -> bool {
        sleep_sorted(self.view().sleep)
    }

    /// No task yet; the clock at zero; no current or idle task.
    pub fn new() -> (r: Self)
        ensures
            r.wf(),
            r.view().tasks.len() == 0,
            r.view().run.len() == 0,
            r.view().sleep.len() == 0,
            r.view().time == 0,
            r.view().current == usize::MAX,
            r.view().idle == usize::MAX,
            !r.view().started,
    {
        Scheduler { tasks: Tasks::new(), time: 0, current: usize::MAX, idle: usize::MAX, started: false }
    }

    /// Records that the per-core data is set up, and which task is the idle task.
    pub fn start(&mut self, idle: usize)
        ensures
            final(self).view() == (SchedView { started: true, idle, ..old(self).view() }),
    {
        self.started = true;
        self.idle = idle;
    }

    /// Puts `task` into the table and, when `add_to_run_queue`, at the back of the run queue;
    /// returns its number.
    pub fn add_to_tasks(&mut self, task: Task, add_to_run_queue: bool) -> (r: usize)
        requires
            old(self).wf(),
            old(self).view().tasks.len() < usize::MAX,
        ensures
            final(self).wf(),
            r <= old(self).view().tasks.len(),
            forall|i: int| 0 <= i < r ==> old(self).view().tasks[i] is Some,
            r < old(self).view().tasks.len() ==> old(self).view().tasks[r as int] is None
                && final(self).view().tasks == old(self).view().tasks.update(
                r as int,
                Some(Task { id: r, ..task }),
            ),
            r == old(self).view().tasks.len() ==> final(self).view().tasks == old(
                self,
            ).view().tasks.push(Some(Task { id: r, ..task })),
            final(self).view().run == if add_to_run_queue {
                old(self).view().run.push(r)
            } else {
                old(self).view().run
            },
            final(self).view() == (SchedView {
                tasks: final(self).view().tasks,
                run: final(self).view().run,
                ..old(self).view()
            }),
    {
        self.tasks.add_to_tasks(task, add_to_run_queue)
    }

    /// The task running now.
    pub fn current(&self) -> (r: usize)
        ensures
            r == self.view().current,
    {
        self.current
    }

    /// The task with number `id`, if there is one.
    pub fn get(&self, id: usize) -> (r: Option<Task>)
        ensures
            r == (if id < self.view().tasks.len() {
                self.view().tasks[id as int]
            } else {
                None
            }),
    {
        self.tasks.get(id)
    }
}

/// The clock, in ticks.
pub fn time_now(s: &Scheduler) -> (r: usize)
    ensures
        r == s.view().time,
{
    s.time
}

/// Makes `next` the running task: it may run until `TASK_RUN_TIME` ticks from now.
pub fn task_switch(s: &mut Scheduler, next: usize) -> (r: Result<(), usize>)
    requires
        switch_ok(old(s).view(), next),
    ensures
        r is Ok,
        final(s).view() == switch_spec(old(s).view(), next),
        final(s).wf() == old(s).wf(),
{
    if next == s.current {
        return Ok(());
    }
    let mut t = s.tasks.tasks[next].unwrap();
    t.time = s.time + TASK_RUN_TIME;
    t.state = TaskState::Running;
    s.tasks.tasks.set(next, Some(t));
    s.current = next;
    proof {
        assert(s.view() =~= switch_spec(old(s).view(), next));
    }
    Ok(())
}

/// Starts scheduling with the first task: `task` enters the table (not the run queue),
/// becomes the running task and may run until `TASK_RUN_TIME` ticks from now. Returns its
/// number.
pub fn init(s: &mut Scheduler, task: Task) -> (r: usize)
    requires
        old(s).wf(),
        old(s).view().tasks.len() < usize::MAX,
        old(s).view().time + TASK_RUN_TIME <= usize::MAX,
    ensures
        final(s).wf(),
        r <= old(s).view().tasks.len(),
        forall|i: int| 0 <= i < r ==> old(s).view().tasks[i] is Some,
        ({
            let t = Some(
                Task {
                    id: r,
                    time: (old(s).view().time + TASK_RUN_TIME) as usize,
                    state: TaskState::Running,
                    ..task
                },
            );
            &&& r < old(s).view().tasks.len() ==> old(s).view().tasks[r as int] is None
                && final(s).view().tasks == old(s).view().tasks.update(r as int, t)
            &&& r == old(s).view().tasks.len() ==> final(s).view().tasks == old(s).view().tasks.push(t)
        }),
        final(s).view() == (SchedView { tasks: final(s).view().tasks, current: r, ..old(s).view() }),
{
    let id = s.add_to_tasks(task, false);
    let mut t = s.tasks.tasks[id].unwrap();
    t.time = s.time + TASK_RUN_TIME;
    t.state = TaskState::Running;
    s.tasks.tasks.set(id, Some(t));
    s.current = id;
    proof {
        assert(s.view().sleep == old(s).view().sleep);
    }
    id
}

proof fn lemma_wake_sorted(sleep: Seq<(usize, Seq<usize>)>, now: int)
    requires
        sleep_sorted(sleep),
    ensures
        sleep_sorted(wake(sleep, now).1),
        wake(sleep, now).1.len() == 0 || wake(sleep, now).1[0].0 > now,
        exists|k: int| 0 <= k <= sleep.len() && wake(sleep, now).1 == sleep.skip(k),
    decreases sleep.len(),
{
    if sleep.len() == 0 || sleep[0].0 > now {
        assert(sleep.skip(0) =~= sleep);
    } else {
        lemma_wake_sorted(sleep.drop_first(), now);
        let k = choose|k: int|
            0 <= k <= sleep.drop_first().len() && wake(sleep.drop_first(), now).1
                == sleep.drop_first().skip(k);
        assert(sleep.drop_first().skip(k) =~= sleep.skip(k + 1));
    }
}

/// Wakes the due sleepers and picks the next task; returns the task switched to, or `None`
/// when the current task keeps running.
fn sched_next(s: &mut Scheduler, to_run_queue: bool) -> (r: Option<usize>)
    requires
        old(s).wf(),
        next_ok(old(s).view(), to_run_queue),
    ensures
        final(s).wf(),
        (final(s).view(), r) == next_spec(old(s).view(), to_run_queue),
{
    let time = s.time;
    let ghost v0 = s.view();
    proof {
        lemma_wake_sorted(v0.sleep, time as int);
    }
    while s.tasks.sleep_queue.len() > 0 && s.tasks.sleep_queue[0].0 <= time
        invariant
            s.time == time,
            time == v0.time,
            s.current == v0.current,
            s.idle == v0.idle,
            s.started == v0.started,
            s.tasks.spec_tasks() == v0.tasks,
            sleep_sorted(s.view().sleep),
            s.view().run + wake(s.view().sleep, time as int).0 == v0.run + wake(
                v0.sleep,
                time as int,
            ).0,
            wake(s.view().sleep, time as int).1 == wake(v0.sleep, time as int).1,
        decreases s.tasks.sleep_queue@.len(),
    {
        let ghost before = s.view();
        let (_, tasks) = s.tasks.sleep_queue.remove(0);
        tasks.extend_to(&mut s.tasks.run_queue);
        proof {
            assert(s.view().sleep =~= before.sleep.drop_first());
            assert(s.view().run + wake(s.view().sleep, time as int).0 =~= before.run + wake(
                before.sleep,
                time as int,
            ).0);
        }
    }
    proof {
        assert(wake(s.view().sleep, time as int).0 =~= Seq::<usize>::empty());
        assert(s.view().run =~= v0.run + wake(v0.sleep, time as int).0);
        assert(s.view() == woken(v0));
    }
    if let Some(next) = s.tasks.run_queue.pop_front() {
        if to_run_queue {
            s.tasks.run_queue.push_back(s.current);
        }
        proof {
            let w = woken(v0);
            assert(s.view().run =~= w.run.drop_first() + if to_run_queue {
                seq![v0.current]
            } else {
                Seq::empty()
            });
        }
        let ok = task_switch(s, next);
        Some(next)
    } else if to_run_queue {
        None
    } else {
        let idle = s.idle;
        let ok = task_switch(s, idle);
        Some(idle)
    }
}

/// The current task gives up the processor: it goes to the back of the run queue and the
/// head of the queue runs. Returns the task switched to, or `None` when the queue was empty.
pub fn sched_yield(s: &mut Scheduler) -> (r: Option<usize>)
    requires
        old(s).wf(),
        next_ok(old(s).view(), true),
    ensures
        final(s).wf(),
        (final(s).view(), r) == next_spec(old(s).view(), true),
{
    sched_next(s, true)
}

/// The current task sleeps for `time` ticks: it is marked blocked and queued to wake at
/// `time` ticks from now, and the next task runs. Sleeping for no tick does nothing.
pub fn sched_sleep(s: &mut Scheduler, time: usize) -> (r: Option<usize>)
    requires
        old(s).wf(),
        time > 0 ==> {
            &&& old(s).view().time + time <= usize::MAX
            &&& current_ok(old(s).view())
            &&& next_ok(
                mark_current(
                    SchedView {
                        sleep: sleep_insert(
                            old(s).view().sleep,
                            (old(s).view().time + time) as usize,
                            old(s).view().current,
                        ),
                        ..old(s).view()
                    },
                    TaskState::Blocked,
                ),
                false,
            )
        },
    ensures
        final(s).wf(),
        time == 0 ==> r is None && final(s).view() == old(s).view(),
        time > 0 ==> (final(s).view(), r) == next_spec(
            mark_current(
                SchedView {
                    sleep: sleep_insert(
                        old(s).view().sleep,
                        (old(s).view().time + time) as usize,
                        old(s).view().current,
                    ),
                    ..old(s).view()
                },
                TaskState::Blocked,
            ),
            false,
        ),
{
    if time == 0 {
        return None;
    }
    let key = s.time + time;
    let current = s.current;
    let ghost v0 = s.view();
    let mut i: usize = 0;
    let n = s.tasks.sleep_queue.len();
    while i < n && s.tasks.sleep_queue[i].0 < key
        invariant
            i <= n,
            n == s.tasks.sleep_queue@.len(),
            s.view() == v0,
            sleep_sorted(v0.sleep),
            forall|j: int| 0 <= j < i ==> v0.sleep[j].0 < key,
        decreases n - i,
    {
        i = i + 1;
    }
    proof {
        lemma_sleep_insert_at(v0.sleep, key, current, i as int);
    }
    if i < n && s.tasks.sleep_queue[i].0 == key {
        let (k, mut entry) = s.tasks.sleep_queue.remove(i);
        entry.push(current);
        s.tasks.sleep_queue.insert(i, (k, entry));
        proof {
            assert(s.view().sleep =~= v0.sleep.update(i as int, (key, v0.sleep[i as int].1.push(current))));
        }
    } else {
        s.tasks.sleep_queue.insert(i, (key, ShortVec::new(current)));
        proof {
            assert(s.view().sleep =~= v0.sleep.insert(i as int, (key, seq![current])));
        }
    }
    let mut t = s.tasks.tasks[current].unwrap();
    t.state = TaskState::Blocked;
    s.tasks.tasks.set(current, Some(t));
    proof {
        let v1 = mark_current(
            SchedView { sleep: sleep_insert(v0.sleep, key, current), ..v0 },
            TaskState::Blocked,
        );
        assert(s.view() =~= v1);
    }
    sched_next(s, false)
}

/// Where `sleep_insert` puts task `id` at tick `k`: at position `i`, the first one whose
/// tick is not below `k`.
proof fn lemma_sleep_insert_at(sleep: Seq<(usize, Seq<usize>)>, k: usize, id: usize, i: int)
    requires
        sleep_sorted(sleep),
        0 <= i <= sleep.len(),
        forall|j: int| 0 <= j < i ==> sleep[j].0 < k,
        i < sleep.len() ==> sleep[i].0 >= k,
    ensures
        i < sleep.len() && sleep[i].0 == k ==> sleep_insert(sleep, k, id) == sleep.update(
            i,
            (k, sleep[i].1.push(id)),
        ),
        !(i < sleep.len() && sleep[i].0 == k) ==> sleep_insert(sleep, k, id) == sleep.insert(
            i,
            (k, seq![id]),
        ),
        sleep_sorted(sleep_insert(sleep, k, id)),
    decreases i,
{
    if i == 0 {
        if sleep.len() == 0 {
            assert(sleep.insert(0, (k, seq![id])) =~= seq![(k, seq![id])]);
        } else if sleep[0].0 == k {
            assert(sleep.update(0, (k, sleep[0].1.push(id))) =~= seq![(k, sleep[0].1.push(id))]
                + sleep.drop_first());
        } else {
            assert(sleep.insert(0, (k, seq![id])) =~= seq![(k, seq![id])] + sleep);
        }
    } else {
        let rest = sleep.drop_first();
        assert forall|a: int, b: int| 0 <= a < b < rest.len() implies #[trigger] rest[a].0
            < #[trigger] rest[b].0 by {
            assert(sleep[a + 1].0 < sleep[b + 1].0);
        }
        lemma_sleep_insert_at(rest, k, id, i - 1);
        if i < sleep.len() && sleep[i].0 == k {
            assert(seq![sleep[0]] + rest.update(i - 1, (k, rest[i - 1].1.push(id))) =~= sleep.update(
                i,
                (k, sleep[i].1.push(id)),
            ));
        } else {
            assert(seq![sleep[0]] + rest.insert(i - 1, (k, seq![id])) =~= sleep.insert(
                i,
                (k, seq![id]),
            ));
        }
    }
    let r = sleep_insert(sleep, k, id);
    assert forall|a: int, b: int| 0 <= a < b < r.len() implies #[trigger] r[a].0 < #[trigger] r[b].0 by {
        if i < sleep.len() && sleep[i].0 == k {
            assert(r[a].0 == sleep[a].0 && r[b].0 == sleep[b].0);
        } else {
            if a < i && b < i {
                assert(r[a] == sleep[a] && r[b] == sleep[b]);
            } else if a < i && b == i {
                assert(r[a] == sleep[a]);
            } else if a < i {
                assert(r[a] == sleep[a] && r[b] == sleep[b - 1]);
            } else if a == i {
                assert(r[b] == sleep[b - 1]);
            } else {
                assert(r[a] == sleep[a - 1] && r[b] == sleep[b - 1]);
            }
        }
    }
}

/// The current task ends: it is marked terminated and the next task runs.
pub fn sched_exit(s: &mut Scheduler) -> (r: Option<usize>)
    requires
        old(s).wf(),
        current_ok(old(s).view()),
        next_ok(mark_current(old(s).view(), TaskState::Terminated), false),
    ensures
        final(s).wf(),
        (final(s).view(), r) == next_spec(mark_current(old(s).view(), TaskState::Terminated), false),
{
    let id = s.current;
    let mut t = s.tasks.tasks[id].unwrap();
    t.state = TaskState::Terminated;
    s.tasks.tasks.set(id, Some(t));
    proof {
        assert(s.view() =~= mark_current(old(s).view(), TaskState::Terminated));
    }
    sched_next(s, false)
}

/// One tick of the clock: the current task, once its time is up, yields. Returns the task
/// switched to, or `None` when the current task keeps running.
pub fn time_tick(s: &mut Scheduler) -> (r: Option<usize>)
    requires
        old(s).wf(),
        old(s).view().time < usize::MAX,
        ({
            let v = SchedView { time: (old(s).view().time + 1) as usize, ..old(s).view() };
            v.started && v.current != usize::MAX ==> current_ok(v) && (v.tasks[v.current as int]->0.time
                <= v.time ==> next_ok(v, true))
        }),
    ensures
        final(s).wf(),
        final(s).view().time == old(s).view().time + 1,
        ({
            let v = SchedView { time: (old(s).view().time + 1) as usize, ..old(s).view() };
            if v.started && v.current != usize::MAX && v.tasks[v.current as int]->0.time <= v.time {
                (final(s).view(), r) == next_spec(v, true)
            } else {
                final(s).view() == v && r is None
            }
        }),
{
    s.time = s.time + 1;
    let time = s.time;
    if !s.started {
        return None;
    }
    let task = s.current;
    if task == usize::MAX {
        return None;
    }
    if s.tasks.get(task).unwrap().time <= time {
        return sched_yield(s);
    }
    None
}

/// The task numbers of the sleep entries, entry after entry.
pub open spec fn sleepers(sleep: Seq<(usize, Seq<usize>)>) -> Seq<usize>
    decreases sleep.len(),
{
    if sleep.len() == 0 {
        Seq::empty()
    } else {
        sleep[0].1 + sleepers(sleep.drop_first())
    }
}

/// Waking loses no task: the woken tasks followed by the tasks still asleep are the tasks that
/// slept, in the same order.
pub proof fn lemma_wake_keeps_tasks(sleep: Seq<(usize, Seq<usize>)>, now: int)
    ensures
        wake(sleep, now).0 + sleepers(wake(sleep, now).1) == sleepers(sleep),
    decreases sleep.len(),
{
    if sleep.len() == 0 || sleep[0].0 > now {
        assert(Seq::<usize>::empty() + sleepers(sleep) =~= sleepers(sleep));
    } else {
        lemma_wake_keeps_tasks(sleep.drop_first(), now);
        let (d, r) = wake(sleep.drop_first(), now);
        assert(sleep[0].1 + d + sleepers(r) =~= sleep[0].1 + (d + sleepers(r)));
    }
}

/// On a sleep queue in order, waking takes exactly the entries that are due: none of the
/// entries left is due, and the queue stays in order.
pub proof fn lemma_wake_takes_due(sleep: Seq<(usize, Seq<usize>)>, now: int)
    requires
        sleep_sorted(sleep),
    ensures
        forall|i: int| 0 <= i < wake(sleep, now).1.len() ==> #[trigger] wake(sleep, now).1[i].0 > now,
        sleep_sorted(wake(sleep, now).1),
{
    lemma_wake_sorted(sleep, now);
    let r = wake(sleep, now).1;
    if r.len() > 0 {
        assert forall|i: int| 0 <= i < r.len() implies #[trigger] r[i].0 > now by {
            if i > 0 {
                assert(r[0].0 < r[i].0);
            }
        }
    }
}

/// Adding a sleeper keeps the sleep queue in order of tick.
pub proof fn lemma_sleep_insert_sorted(sleep: Seq<(usize, Seq<usize>)>, k: usize, id: usize)
    requires
        sleep_sorted(sleep),
    ensures
        sleep_sorted(sleep_insert(sleep, k, id)),
{
    let i = choose_insert_pos(sleep, k);
    lemma_insert_pos(sleep, k);
    lemma_sleep_insert_at(sleep, k, id, i);
}

/// The first position of a sleep queue whose tick is not below `k`.
pub open spec fn choose_insert_pos(sleep: Seq<(usize, Seq<usize>)>, k: usize) -> int
    decreases sleep.len(),
{
    if sleep.len() == 0 || sleep[0].0 >= k {
        0
    } else {
        1 + choose_insert_pos(sleep.drop_first(), k)
    }
}

proof fn lemma_insert_pos(sleep: Seq<(usize, Seq<usize>)>, k: usize)
    ensures
        0 <= choose_insert_pos(sleep, k) <= sleep.len(),
        forall|j: int| 0 <= j < choose_insert_pos(sleep, k) ==> #[trigger] sleep[j].0 < k,
        choose_insert_pos(sleep, k) < sleep.len() ==> sleep[choose_insert_pos(sleep, k)].0 >= k,
    decreases sleep.len(),
{
    if sleep.len() > 0 && sleep[0].0 < k {
        lemma_insert_pos(sleep.drop_first(), k);
        assert forall|j: int| 0 <= j < choose_insert_pos(sleep, k) implies #[trigger] sleep[j].0 < k by {
            if j > 0 {
                assert(sleep[j] == sleep.drop_first()[j - 1]);
            }
        }
    }
}

/// Round robin: when a task yields and a task is ready once the due sleepers are woken, the
/// head of the queue runs next and the task that yielded goes to the back of the queue.
pub proof fn lemma_yield_rotates(v: SchedView)
    requires
        woken(v).run.len() > 0,
    ensures
        next_spec(v, true).1 == Some(woken(v).run[0]),
        next_spec(v, true).0.run == woken(v).run.drop_first().push(v.current),
        woken(v).run[0] != v.current ==> next_spec(v, true).0.current == woken(v).run[0],
{
    assert(woken(v).run.drop_first() + seq![v.current] =~= woken(v).run.drop_first().push(v.current));
}

} // verus!
