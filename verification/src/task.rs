//! Tasks: the flows of execution that the scheduler switches between.
use vstd::prelude::*;

verus! {

/// Bytes of stack per task.
pub const STACK_SIZE: usize = 16384;

/// The callee-saved registers and the stack pointer: what a cooperative switch
/// has to preserve.
#[derive(Clone, Copy)]
pub struct Context {
    pub rbx: u64,
    pub rbp: u64,
    pub r12: u64,
    pub r13: u64,
    pub r14: u64,
    pub r15: u64,
    pub rsp: u64,
}

impl Context {
    pub fn zero() -> (r: Self)
        ensures
            r == context_with_rsp(0),
    {
        Context { rbx: 0, rbp: 0, r12: 0, r13: 0, r14: 0, r15: 0, rsp: 0 }
    }
}

/// The context with this stack pointer and zeros in all other registers.
pub open spec fn context_with_rsp(rsp: u64) -> Context {
    Context { rbx: 0, rbp: 0, r12: 0, r13: 0, r14: 0, r15: 0, rsp }
}

#[derive(Clone, Copy, PartialEq, Eq, Debug, Structural)]
pub enum TaskState {
    Ready,
    Running,
    Finished,
}

#[derive(Clone, Copy)]
pub struct Task {
    pub id: u64,
    pub context: Context,
    pub state: TaskState,
    /// 0 for a kernel thread, which runs in whatever address space is active.
    /// Otherwise the root of the address space of the task.
    pub page_table: u64,
    /// PID of the process that the task belongs to, 0 for a kernel thread.
    pub pid: u64,
    /// Stack for its system calls, 0 if it never makes one. A
    /// stack of its own per task keeps a call that waits from being overwritten
    /// by the call of another task.
    pub kernel_stack_top: u64,
}

/// The highest multiple of 16 up to `a`.
pub open spec fn align16(a: int) -> int {
    a - a % 16
}

impl Task {
    /// A task that starts at `entry` on the stack of [`STACK_SIZE`] bytes from
    /// `stack_bottom` on. The caller has to store the address of `entry` at the
    /// initial `rsp`: the first switch to the task returns through it.
    ///
    /// The initial `rsp` is a multiple of 16, so that after that return the
    /// stack is as a function expects it right after a call.
    pub fn new(id: u64, stack_bottom: u64, kernel_stack_bottom: u64) -> (r: Task)
        requires
            stack_bottom + STACK_SIZE <= u64::MAX,
            kernel_stack_bottom + STACK_SIZE <= u64::MAX,
        ensures
            r == (Task {
                id,
                context: context_with_rsp(align16(stack_bottom + STACK_SIZE - 16) as u64),
                state: TaskState::Ready,
                page_table: 0,
                pid: 0,
                kernel_stack_top: align16(kernel_stack_bottom + STACK_SIZE) as u64,
            }),
    {
        let kernel_end = kernel_stack_bottom + STACK_SIZE as u64;
        let entry_slot = stack_bottom + STACK_SIZE as u64 - 16;
        let mut context = Context::zero();
        context.rsp = entry_slot - entry_slot % 16;
        Task {
            id,
            context,
            state: TaskState::Ready,
            page_table: 0,
            pid: 0,
            kernel_stack_top: kernel_end - kernel_end % 16,
        }
    }

    /// A task for a flow that already runs. Its registers are filled in by the
    /// first switch away from it.
    pub fn placeholder(id: u64) -> (r: Task)
        ensures
            r == (Task {
                id,
                context: context_with_rsp(0),
                state: TaskState::Running,
                page_table: 0,
                pid: 0,
                kernel_stack_top: 0,
            }),
    {
        Task {
            id,
            context: Context::zero(),
            state: TaskState::Running,
            page_table: 0,
            pid: 0,
            kernel_stack_top: 0,
        }
    }
}

/// The slot for the entry address and the eight bytes after it lie inside the
/// stack, and both stack pointers are aligned.
pub proof fn law_stack_layout(stack_bottom: u64, kernel_stack_bottom: u64)
    requires
        stack_bottom + STACK_SIZE <= u64::MAX,
        kernel_stack_bottom + STACK_SIZE <= u64::MAX,
    ensures
        ({
            let rsp = align16(stack_bottom + STACK_SIZE - 16);
            let top = align16(kernel_stack_bottom + STACK_SIZE);
            &&& stack_bottom <= rsp
            &&& rsp + 16 <= stack_bottom + STACK_SIZE < rsp + 32
            &&& rsp % 16 == 0
            &&& (rsp + 8) % 16 == 8
            &&& kernel_stack_bottom < top <= kernel_stack_bottom + STACK_SIZE < top + 16
            &&& top % 16 == 0
        }),
{
}

} // verus!
