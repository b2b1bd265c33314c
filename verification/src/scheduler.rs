//! Round-robin scheduler.
//!
//! Tasks take turns in the order in which they were added; finished tasks are
//! skipped. There is no preference among tasks.
use vstd::prelude::*;
use crate::task::{Task, TaskState};

verus! {

pub struct Scheduler {
    pub tasks: Vec<Task>,
    pub current: usize,
}

/// What the processor has to do to give the turn to another task, in this
/// order: load the root of its address space, set the stack for its system
/// calls and interrupts, and exchange the registers of task `from` for those
/// of task `to`.
#[derive(Clone, Copy)]
pub struct Switch {
    pub from: usize,
    pub to: usize,
    /// Root to load, unless the task shares the active address space.
    pub load_root: Option<u64>,
    /// Stack for system calls and for interrupts out of ring 3.
    pub kernel_stack_top: Option<u64>,
    /// PID of the process that runs from now on.
    pub pid: u64,
}

/// The task `step` turns after `current`.
pub open spec fn turn(n: int, current: int, step: int) -> int {
    (current + step) % n
}

/// Whether the turn goes from `current` to the task `step` places further on:
/// it has not finished, and all in between have.
pub open spec fn is_next(tasks: Seq<Task>, current: int, step: int) -> bool {
    &&& 1 <= step < tasks.len()
    &&& tasks[turn(tasks.len() as int, current, step)].state != TaskState::Finished
    &&& forall|s: int|
        1 <= s < step ==> tasks[#[trigger] turn(tasks.len() as int, current, s)].state
            == TaskState::Finished
}

/// The task that gets the turn after `current`. It is `current` itself if all
/// others have finished.
pub open spec fn next_turn(tasks: Seq<Task>, current: int) -> int {
    if exists|step: int| is_next(tasks, current, step) {
        turn(tasks.len() as int, current, choose|step: int| is_next(tasks, current, step))
    } else {
        current
    }
}

impl Scheduler {
    pub open spec fn wf(&self) -> bool {
        self.current < self.tasks@.len()
    }

    proof fn lemma_next(&self, step: int)
        requires
            self.wf(),
            is_next(self.tasks@, self.current as int, step),
        ensures
            next_turn(self.tasks@, self.current as int) == turn(
                self.tasks@.len() as int,
                self.current as int,
                step,
            ),
    {
        lemma_next_unique(self.tasks@, self.current as int, step);
    }
}

proof fn lemma_next_unique(tasks: Seq<Task>, current: int, step: int)
    requires
        is_next(tasks, current, step),
    ensures
        (choose|s: int| is_next(tasks, current, s)) == step,
{
    let k = choose|s: int| is_next(tasks, current, s);
    assert(is_next(tasks, current, k));
    assert(k == step) by {
        if k < step {
            assert(tasks[turn(tasks.len() as int, current, k)].state == TaskState::Finished);
        } else if step < k {
            assert(tasks[turn(tasks.len() as int, current, step)].state == TaskState::Finished);
        }
    }
}

/// A scheduler whose only task is the flow that calls this.
pub fn init() -> (r: Scheduler)
    ensures
        r.wf(),
        r.current == 0,
        r.tasks@ == seq![
            Task {
                id: 0,
                context: crate::task::context_with_rsp(0),
                state: TaskState::Running,
                page_table: 0,
                pid: 0,
                kernel_stack_top: 0,
            },
        ],
{
    let mut tasks: Vec<Task> = Vec::new();
    tasks.push(Task::placeholder(0));
    Scheduler { tasks, current: 0 }
}

/// The task that [`spawn_with_space`] adds.
pub open spec fn spawned(
    id: u64,
    stack_bottom: u64,
    kernel_stack_bottom: u64,
    page_table: u64,
    pid: u64,
) -> Task {
    Task {
        id,
        context: crate::task::context_with_rsp(
            crate::task::align16(stack_bottom + crate::task::STACK_SIZE - 16) as u64,
        ),
        state: TaskState::Ready,
        page_table,
        pid,
        kernel_stack_top: crate::task::align16(
            kernel_stack_bottom + crate::task::STACK_SIZE,
        ) as u64,
    }
}

/// Adds a task with the given stacks, address space and PID (0 and 0 for a
/// kernel thread). It runs when its turn comes. Gives its id.
pub fn spawn_with_space(
    sched: &mut Scheduler,
    stack_bottom: u64,
    kernel_stack_bottom: u64,
    page_table: u64,
    pid: u64,
) -> (r: u64)
    requires
        old(sched).wf(),
        stack_bottom + crate::task::STACK_SIZE <= u64::MAX,
        kernel_stack_bottom + crate::task::STACK_SIZE <= u64::MAX,
    ensures
        final(sched).wf(),
        r == old(sched).tasks@.len(),
        final(sched).current == old(sched).current,
        final(sched).tasks@ == old(sched).tasks@.push(
            spawned(r, stack_bottom, kernel_stack_bottom, page_table, pid),
        ),
{
    let id = sched.tasks.len() as u64;
    let mut task = Task::new(id, stack_bottom, kernel_stack_bottom);
    task.page_table = page_table;
    task.pid = pid;
    sched.tasks.push(task);
    id
}

/// The task that [`spawn`] adds: a kernel thread makes no system call, so it
/// has no stack for one.
pub open spec fn kernel_thread(id: u64, stack_bottom: u64) -> Task {
    Task { kernel_stack_top: 0, ..spawned(id, stack_bottom, 0, 0, 0) }
}

/// Adds a kernel thread.
pub fn spawn(sched: &mut Scheduler, stack_bottom: u64) -> (r: u64)
    requires
        old(sched).wf(),
        stack_bottom + crate::task::STACK_SIZE <= u64::MAX,
    ensures
        final(sched).wf(),
        r == old(sched).tasks@.len(),
        final(sched).current == old(sched).current,
        final(sched).tasks@ == old(sched).tasks@.push(kernel_thread(r, stack_bottom)),
{
    let id = sched.tasks.len() as u64;
    let task = Task { kernel_stack_top: 0, ..Task::new(id, stack_bottom, 0) };
    sched.tasks.push(task);
    id
}

/// Task `t`, but finished.
pub open spec fn finished(t: Task) -> Task {
    Task { state: TaskState::Finished, ..t }
}

/// Marks the running task as finished: it never gets a turn again.
pub fn mark_current_finished(sched: &mut Scheduler)
    requires
        old(sched).wf(),
    ensures
        final(sched).wf(),
        final(sched).current == old(sched).current,
        final(sched).tasks@ == old(sched).tasks@.update(
            old(sched).current as int,
            finished(old(sched).tasks@[old(sched).current as int]),
        ),
{
    let t = sched.tasks[sched.current];
    sched.tasks.set(sched.current, Task { state: TaskState::Finished, ..t });
}

/// Marks a task as finished, whether or not it is the running one.
pub fn mark_finished(sched: &mut Scheduler, i: usize)
    requires
        old(sched).wf(),
        i < old(sched).tasks@.len(),
    ensures
        final(sched).wf(),
        final(sched).current == old(sched).current,
        final(sched).tasks@ == old(sched).tasks@.update(
            i as int,
            finished(old(sched).tasks@[i as int]),
        ),
{
    let t = sched.tasks[i];
    sched.tasks.set(i, Task { state: TaskState::Finished, ..t });
}

/// Whether task `i` is the first one of the process `pid`.
pub open spec fn is_task_of(tasks: Seq<Task>, pid: u64, i: int) -> bool {
    &&& 0 <= i < tasks.len()
    &&& tasks[i].pid == pid
    &&& forall|j: int| 0 <= j < i ==> (#[trigger] tasks[j]).pid != pid
}

/// The tasks after the first task of process `pid` has been finished.
pub open spec fn finish_pid(tasks: Seq<Task>, pid: u64) -> Seq<Task> {
    if exists|i: int| is_task_of(tasks, pid, i) {
        let i = choose|i: int| is_task_of(tasks, pid, i);
        tasks.update(i, finished(tasks[i]))
    } else {
        tasks
    }
}

/// Marks the task of a process as finished, whether or not it is the running
/// one. `false` if no task belongs to the process.
pub fn mark_finished_by_pid(sched: &mut Scheduler, pid: u64) -> (r: bool)
    requires
        old(sched).wf(),
    ensures
        final(sched).wf(),
        final(sched).current == old(sched).current,
        r == exists|i: int| is_task_of(old(sched).tasks@, pid, i),
        final(sched).tasks@ == finish_pid(old(sched).tasks@, pid),
{
    let ghost tasks = sched.tasks@;
    let mut i: usize = 0;
    while i < sched.tasks.len()
        invariant
            i <= tasks.len(),
            tasks == sched.tasks@,
            *sched == *old(sched),
            sched.wf(),
            forall|j: int| 0 <= j < i ==> (#[trigger] tasks[j]).pid != pid,
        decreases tasks.len() - i,
    {
        let t = sched.tasks[i];
        if t.pid == pid {
            proof {
                assert(is_task_of(tasks, pid, i as int));
                let k = choose|k: int| is_task_of(tasks, pid, k);
                assert(is_task_of(tasks, pid, k));
                assert(k == i) by {
                    if k < i {
                        assert(tasks[k].pid != pid);
                    } else if i < k {
                        assert(tasks[i as int].pid != pid);
                    }
                }
            }
            sched.tasks.set(i, Task { state: TaskState::Finished, ..t });
            return true;
        }
        i += 1;
    }
    assert(!exists|k: int| is_task_of(tasks, pid, k));
    false
}

/// Passes the turn on. `None` if no other task can take it; the running task
/// then keeps it. `active_root` is the root of the active address space.
pub fn yield_now(sched: &mut Scheduler, active_root: u64) -> (r: Option<Switch>)
    requires
        old(sched).wf(),
    ensures
        final(sched).wf(),
        final(sched).tasks@ == old(sched).tasks@,
        final(sched).current == next_turn(old(sched).tasks@, old(sched).current as int),
        r is None <==> next_turn(old(sched).tasks@, old(sched).current as int)
            == old(sched).current,
        r matches Some(w) ==> {
            let t = old(sched).tasks@[final(sched).current as int];
            &&& w.from == old(sched).current
            &&& w.to == final(sched).current
            &&& w.load_root == if t.page_table != 0 && t.page_table != active_root {
                Some(t.page_table)
            } else {
                None
            }
            &&& w.kernel_stack_top == if t.kernel_stack_top != 0 {
                Some(t.kernel_stack_top)
            } else {
                None
            }
            &&& w.pid == t.pid
        },
{
    let n = sched.tasks.len();
    let old_idx = sched.current;
    let mut next_idx: usize = old_idx;
    let mut step: usize = 1;
    while step < n
        invariant
            1 <= step,
            step <= n || n < 2,
            n == sched.tasks@.len(),
            sched.wf(),
            *sched == *old(sched),
            old_idx == sched.current,
            next_idx == old_idx,
            forall|s: int|
                1 <= s < step ==> sched.tasks@[#[trigger] turn(n as int, old_idx as int, s)].state
                    == TaskState::Finished,
        decreases n - step,
    {
        // `old_idx + step`, cut to the table, without going past `n`.
        let candidate = if step < n - old_idx {
            old_idx + step
        } else {
            step - (n - old_idx)
        };
        assert(candidate == turn(n as int, old_idx as int, step as int)) by {
            let sum = old_idx + step;
            if sum >= n {
                assert(sum % (n as int) == sum - n) by (nonlinear_arith)
                    requires
                        n <= sum < 2 * n,
                ;
            } else {
                assert(sum % (n as int) == sum) by (nonlinear_arith)
                    requires
                        0 <= sum < n,
                ;
            }
        }
        let t = sched.tasks[candidate];
        if t.state != TaskState::Finished {
            proof {
                assert(is_next(sched.tasks@, old_idx as int, step as int));
                sched.lemma_next(step as int);
            }
            sched.current = candidate;
            let load_root = if t.page_table != 0 && t.page_table != active_root {
                Some(t.page_table)
            } else {
                None
            };
            let kernel_stack_top = if t.kernel_stack_top != 0 {
                Some(t.kernel_stack_top)
            } else {
                None
            };
            return Some(
                Switch { from: old_idx, to: candidate, load_root, kernel_stack_top, pid: t.pid },
            );
        }
        step += 1;
    }
    proof {
        if exists|s: int| is_next(sched.tasks@, old_idx as int, s) {
            let s = choose|s: int| is_next(sched.tasks@, old_idx as int, s);
            assert(is_next(sched.tasks@, old_idx as int, s));
            assert(sched.tasks@[turn(n as int, old_idx as int, s)].state == TaskState::Finished);
        }
    }
    None
}

pub fn task_count(sched: &Scheduler) -> (r: usize)
    ensures
        r == sched.tasks@.len(),
{
    sched.tasks.len()
}

/// How many places task `k` is away from `current`, going round.
pub open spec fn distance(n: int, current: int, k: int) -> int {
    (k - current) % n
}

/// The task that has the turn after `times` turns were passed on.
pub open spec fn turn_after(tasks: Seq<Task>, current: int, times: nat) -> int
    decreases times,
{
    if times == 0 {
        current
    } else {
        turn_after(tasks, next_turn(tasks, current), (times - 1) as nat)
    }
}

/// The turn never goes to a finished task.
pub proof fn law_finished_never_runs(tasks: Seq<Task>, current: int)
    requires
        0 <= current < tasks.len(),
    ensures
        0 <= next_turn(tasks, current) < tasks.len(),
        next_turn(tasks, current) != current ==> tasks[next_turn(tasks, current)].state
            != TaskState::Finished,
{
    let n = tasks.len() as int;
    if exists|step: int| is_next(tasks, current, step) {
        let step = choose|step: int| is_next(tasks, current, step);
        assert(is_next(tasks, current, step));
        assert(0 <= (current + step) % n < n) by (nonlinear_arith)
            requires
                n > 0,
        ;
    }
}

proof fn lemma_closer(tasks: Seq<Task>, current: int, k: int)
    requires
        0 <= current < tasks.len(),
        0 <= k < tasks.len(),
        k != current,
        tasks[k].state != TaskState::Finished,
    ensures
        0 <= next_turn(tasks, current) < tasks.len(),
        distance(tasks.len() as int, next_turn(tasks, current), k) < distance(
            tasks.len() as int,
            current,
            k,
        ),
        0 <= distance(tasks.len() as int, next_turn(tasks, current), k),
        distance(tasks.len() as int, next_turn(tasks, current), k) == 0 <==> next_turn(
            tasks,
            current,
        ) == k,
{
    let n = tasks.len() as int;
    let d = distance(n, current, k);
    lemma_mod_pick(k - current, n);
    assert(1 <= d < n);
    assert(turn(n, current, d) == k) by {
        if k > current {
            assert(d == k - current);
        } else {
            assert(d == k - current + n);
        }
        lemma_mod_pick(current + d, n);
    }
    // The first candidate that has not finished is at most `d` places away.
    let step = lemma_first_step(tasks, current, d);
    lemma_next_unique(tasks, current, step);
    lemma_mod_pick(current + step, n);
    let next = turn(n, current, step);
    lemma_mod_pick(k - next, n);
}

/// A remainder, for numbers at most one `n` out of range.
proof fn lemma_mod_pick(x: int, n: int)
    requires
        n > 0,
        -n < x < 2 * n,
    ensures
        x % n == if x < 0 {
            x + n
        } else if x < n {
            x
        } else {
            x - n
        },
{
    if x < 0 {
        assert(x % n == x + n) by (nonlinear_arith)
            requires
                -n < x < 0,
                n > 0,
        ;
    } else if x < n {
        assert(x % n == x) by (nonlinear_arith)
            requires
                0 <= x < n,
        ;
    } else {
        assert(x % n == x - n) by (nonlinear_arith)
            requires
                n <= x < 2 * n,
        ;
    }
}

proof fn lemma_first_step(tasks: Seq<Task>, current: int, d: int) -> (step: int)
    requires
        1 <= d < tasks.len(),
        tasks[turn(tasks.len() as int, current, d)].state != TaskState::Finished,
    ensures
        1 <= step <= d,
        is_next(tasks, current, step),
    decreases d,
{
    let n = tasks.len() as int;
    if forall|s: int|
        1 <= s < d ==> tasks[#[trigger] turn(n, current, s)].state == TaskState::Finished {
        d
    } else {
        let s = choose|s: int|
            1 <= s < d && tasks[#[trigger] turn(n, current, s)].state != TaskState::Finished;
        lemma_first_step(tasks, current, s)
    }
}

/// No task starves: every task that has not finished gets the turn after fewer
/// turns than there are tasks.
pub proof fn law_round_robin_is_fair(tasks: Seq<Task>, current: int, k: int)
    requires
        0 <= current < tasks.len(),
        0 <= k < tasks.len(),
        tasks[k].state != TaskState::Finished,
    ensures
        exists|times: nat| times < tasks.len() && #[trigger] turn_after(tasks, current, times) == k,
{
    let times = lemma_turn_comes(tasks, current, k);
    assert(turn_after(tasks, current, times) == k);
}

proof fn lemma_turn_comes(tasks: Seq<Task>, current: int, k: int) -> (times: nat)
    requires
        0 <= current < tasks.len(),
        0 <= k < tasks.len(),
        tasks[k].state != TaskState::Finished,
    ensures
        times <= distance(tasks.len() as int, current, k) < tasks.len(),
        turn_after(tasks, current, times) == k,
    decreases distance(tasks.len() as int, current, k),
{
    let n = tasks.len() as int;
    lemma_mod_pick(k - current, n);
    if k == current {
        0
    } else {
        lemma_closer(tasks, current, k);
        let rest = lemma_turn_comes(tasks, next_turn(tasks, current), k);
        rest + 1
    }
}

/// The turn goes to the nearest task behind the running one, from the first one
/// again at the end, that is not finished. Where all others are finished the
/// running task keeps it.
pub proof fn law_nearest_task_is_next(tasks: Seq<Task>, current: int, k: int)
    requires
        0 <= current < tasks.len(),
        0 <= k < tasks.len(),
        current != k,
        tasks[k].state != TaskState::Finished,
        current < k ==> forall|j: int|
            current < j < k ==> (#[trigger] tasks[j]).state == TaskState::Finished,
        k < current ==> forall|j: int|
            current < j < tasks.len() || 0 <= j < k ==> (#[trigger] tasks[j]).state
                == TaskState::Finished,
    ensures
        next_turn(tasks, current) == k,
{
    let n = tasks.len() as int;
    let step = if current < k {
        k - current
    } else {
        k - current + n
    };
    assert forall|s: int| 1 <= s <= step implies #[trigger] turn(n, current, s) == if current + s
        < n {
        current + s
    } else {
        current + s - n
    } by {
        lemma_cut(current + s, n);
    }
    assert(turn(n, current, step) == k);
    assert forall|s: int| 1 <= s < step implies tasks[#[trigger] turn(n, current, s)].state
        == TaskState::Finished by {}
    assert(is_next(tasks, current, step));
    lemma_next_unique(tasks, current, step);
}

proof fn lemma_cut(x: int, n: int)
    by (nonlinear_arith)
    requires
        0 <= x < 2 * n,
    ensures
        x % n == if x < n {
            x
        } else {
            x - n
        },
{
}

/// A task that is the only one left keeps the turn.
pub proof fn law_last_task_keeps_the_turn(tasks: Seq<Task>, current: int)
    requires
        0 <= current < tasks.len(),
        forall|j: int|
            0 <= j < tasks.len() && j != current ==> (#[trigger] tasks[j]).state
                == TaskState::Finished,
    ensures
        next_turn(tasks, current) == current,
{
    law_finished_never_runs(tasks, current);
}

/// A kernel thread belongs to no process, runs in whatever space is active and
/// needs no stack for system calls; a task of a process has its PID, its space
/// and both stacks. Each starts on the highest aligned place of its stack with
/// all registers zero, and waits for its turn.
pub proof fn law_new_tasks_start_on_their_stacks(
    id: u64,
    stack_bottom: u64,
    kernel_stack_bottom: u64,
    page_table: u64,
    pid: u64,
)
    requires
        stack_bottom + 16384 <= u64::MAX,
        kernel_stack_bottom + 16384 <= u64::MAX,
    ensures
        ({
            let t = spawned(id, stack_bottom, kernel_stack_bottom, page_table, pid);
            let k = kernel_thread(id, stack_bottom);
            &&& t.id == id && t.pid == pid && t.page_table == page_table
            &&& t.state == TaskState::Ready
            &&& t.context.rsp % 16 == 0
            &&& t.context.rsp + 16 <= stack_bottom + 16384 < t.context.rsp + 32
            &&& t.kernel_stack_top % 16 == 0
            &&& t.kernel_stack_top <= kernel_stack_bottom + 16384 < t.kernel_stack_top + 16
            &&& t.context.rbx == 0 && t.context.rbp == 0 && t.context.r12 == 0 && t.context.r13 == 0
                && t.context.r14 == 0 && t.context.r15 == 0
            &&& k.id == id && k.pid == 0 && k.page_table == 0 && k.kernel_stack_top == 0
            &&& k.state == TaskState::Ready
            &&& k.context == t.context
        }),
{
    crate::task::law_stack_layout(stack_bottom, kernel_stack_bottom);
}

} // verus!
