//! System calls: the state of the kernel, and what each call does to it.
use vstd::prelude::*;
use crate::bytes;
use crate::caps::{self, Capabilities};
use crate::elf::{self, Trouble};
use crate::fmt;
use crate::gdt;
use crate::heap::{self, BumpAllocator, HEAP_SIZE};
use crate::mem::{self, PhysMemory};
use crate::mmu::{self, Frames};
use crate::pmm::{self, FrameBitmap};
use crate::process::{self, Pcb, ProcessTable};
use crate::ring3::{self, IretFrame};
use crate::scheduler::{self, Scheduler};
use crate::signal;
use crate::task::{self, Task};
use crate::text;
use crate::user;
use crate::vfs::{self, TmpFs};

verus! {

pub const SYS_PING: u64 = 1;

pub const SYS_GETPID: u64 = 39;

pub const SYS_FORK: u64 = 57;

pub const SYS_EXECVE: u64 = 59;

pub const SYS_EXIT: u64 = 60;

pub const SYS_WAIT: u64 = 61;

pub const SYS_KILL: u64 = 62;

/// What a refused or failed call returns.
pub const FAILED: u64 = 0xFFFF_FFFF_FFFF_FFFF;

/// What a ping returns.
pub const PONG: u64 = 0xC0FFEE;

pub const FORK_NO_MEMORY: &'static str =
    "[syscall] fork: sin memoria física para clonar el espacio de direcciones\n";

pub const EXEC_BAD_NAME: &'static str =
    "[syscall] execve: nombre de fichero no es UTF-8 válido\n";

pub const EXEC_NO_STACK: &'static str =
    "[syscall] execve: sin memoria física para la pila de usuario\n";

/// Where the stack of a new program is mapped: outside of what address spaces
/// share.
pub const USER_STACK_VIRT: u64 = 0xC0_0000_0000;

/// Number and arguments of a call, and where the caller goes on.
#[derive(Clone, Copy)]
pub struct SyscallFrame {
    pub num: u64,
    pub arg0: u64,
    pub arg1: u64,
    pub arg2: u64,
    pub arg3: u64,
    pub arg4: u64,
    pub arg5: u64,
    pub user_rflags: u64,
    pub user_rip: u64,
}

/// What follows a call.
#[derive(Clone, Copy)]
pub enum Outcome {
    /// Back to the caller, with this value.
    Return(u64),
    /// Store the address of the start of the child at `entry_slot`, then back to
    /// the caller with the PID.
    Spawned { pid: u64, entry_slot: u64 },
    /// The caller is gone: let interrupts in and pass the turn on, for good.
    Park,
    /// Pass the turn on, then try again with [`resume_wait`].
    Wait,
    /// Load this root and go to ring 3 with this frame.
    Enter { root: u64, frame: IretFrame },
    /// The kernel cannot go on.
    Halt,
}

/// Where the child of the latest fork starts.
#[derive(Clone, Copy, PartialEq, Eq, Structural)]
pub struct ForkHandoff {
    pub pid: u64,
    pub rip: u64,
    pub rsp: u64,
}

/// Where the latest process that was not forked starts.
#[derive(Clone, Copy, PartialEq, Eq, Structural)]
pub struct LaunchHandoff {
    pub entry: u64,
    pub stack: u64,
}

/// The kernel.
pub struct Kernel {
    pub mem: PhysMemory,
    pub pmm: FrameBitmap,
    /// Root of the active address space.
    pub cr3: u64,
    pub procs: ProcessTable,
    pub sched: Scheduler,
    pub fs: TmpFs,
    /// Capabilities of the running process.
    pub caps: Capabilities,
    /// The part of the heap for the stacks of the tasks: of the bytes from
    /// `heap_start` on, how many are taken.
    pub heap: BumpAllocator,
    /// How many bytes of the heap are taken by everything else.
    pub blocks: u64,
    pub heap_start: u64,
    /// Stack pointer of the caller of the current system call.
    pub user_rsp: u64,
    /// Stack for the next system call.
    pub syscall_stack_top: u64,
    pub fork: ForkHandoff,
    pub launch: LaunchHandoff,
}

/// What the kernel holds.
#[verifier::ext_equal]
pub struct KernelState {
    pub mem: Frames,
    pub pool: Set<u64>,
    pub cr3: u64,
    pub procs: Seq<Pcb>,
    pub next_pid: u64,
    pub current_pid: u64,
    pub tasks: Seq<Task>,
    pub current: usize,
    pub files: Map<Seq<char>, Seq<u8>>,
    pub caps: u32,
    pub heap: u64,
    pub blocks: u64,
    pub heap_start: u64,
    pub user_rsp: u64,
    pub syscall_stack_top: u64,
    pub fork: ForkHandoff,
    pub launch: LaunchHandoff,
}

impl View for Kernel {
    type V = KernelState;

    open spec fn view(&self) -> KernelState {
        KernelState {
            mem: self.mem@,
            pool: self.pmm@,
            cr3: self.cr3,
            procs: self.procs.procs@,
            next_pid: self.procs.next_pid,
            current_pid: self.procs.current_pid,
            tasks: self.sched.tasks@,
            current: self.sched.current,
            files: self.fs@,
            caps: self.caps@,
            heap: self.heap@,
            blocks: self.blocks,
            heap_start: self.heap_start,
            user_rsp: self.user_rsp,
            syscall_stack_top: self.syscall_stack_top,
            fork: self.fork,
            launch: self.launch,
        }
    }
}

impl Kernel {
    pub open spec fn wf(&self) -> bool {
        &&& self.mem.wf()
        &&& self.pmm.wf()
        &&& self.sched.wf()
        &&& self.fs.wf()
        &&& self.heap.wf()
        &&& self.heap@ + self.blocks <= HEAP_SIZE
        &&& self.heap_start + HEAP_SIZE + 1 <= u64::MAX
    }
}

/// The processor registers that make system calls work.
#[derive(Clone, Copy, PartialEq, Eq, Debug, Structural)]
pub struct SyscallRegisters {
    pub efer: u64,
    pub star: u64,
    pub lstar: u64,
    pub fmask: u64,
}

/// Bytes of the stack for system calls before there are tasks.
pub const KERNEL_SYSCALL_STACK_SIZE: u64 = 0x4000;

/// Base of the selectors of the kernel (0x08) and of the user (0x10).
pub const STAR: u64 = 0x0010_0008_0000_0000;

/// Interrupts are off when a system call starts.
pub const FMASK: u64 = 0x200;

/// Register values, given the current EFER and the address of the entry point.
pub fn init(efer: u64, entry: u64) -> (r: SyscallRegisters)
    ensures
        r == (SyscallRegisters { efer: efer | 1, star: STAR, lstar: entry, fmask: FMASK }),
{
    SyscallRegisters { efer: efer | 1, star: STAR, lstar: entry, fmask: FMASK }
}

/// With these registers the processor finds the selectors of the segment
/// table.
pub proof fn law_star_selects_segments()
    ensures
        (STAR / 0x1_0000_0000) % 0x1_0000 == gdt::KERNEL_CODE_SELECTOR,
        STAR / 0x1_0000_0000_0000 + 8 == gdt::USER_DATA_SELECTOR - 3,
        STAR / 0x1_0000_0000_0000 + 16 == gdt::USER_CODE_SELECTOR - 3,
{
}

/// Sets the stack for the next system call.
pub fn set_syscall_stack_top(k: &mut Kernel, top: u64)
    requires
        old(k).wf(),
    ensures
        final(k).wf(),
        final(k)@ == (KernelState { syscall_stack_top: top, ..old(k)@ }),
{
    k.syscall_stack_top = top;
}

// --- the log of the calls ----------------------------------------------------

/// What is logged of a call that was refused for want of a capability.
pub open spec fn denied_text(
    call: &'static str,
    requested: u32,
    granted: u32,
    missing: &'static str,
) -> Seq<u8> {
    fmt::text("[syscall] "@) + fmt::text(call@) + fmt::text(" DENEGADO — pedido=0x"@) + fmt::hex(
        requested as nat,
    ) + fmt::text(", otorgado=0x"@) + fmt::hex(granted as nat) + fmt::text(" (falta "@) + fmt::text(
        missing@,
    ) + fmt::text(")\n"@)
}

fn log_denied(
    log: &mut Vec<u8>,
    call: &'static str,
    violation: &caps::CapViolation,
    missing: &'static str,
)
    ensures
        final(log)@ == old(log)@ + denied_text(
            call,
            violation.requested,
            violation.granted,
            missing,
        ),
{
    let mut line: Vec<u8> = Vec::new();
    fmt::push_text(&mut line, "[syscall] ");
    assert(line@ =~= fmt::text("[syscall] "@));
    fmt::push_text(&mut line, call);
    fmt::push_text(&mut line, " DENEGADO — pedido=0x");
    fmt::push_hex(&mut line, violation.requested as u64);
    fmt::push_text(&mut line, ", otorgado=0x");
    fmt::push_hex(&mut line, violation.granted as u64);
    fmt::push_text(&mut line, " (falta ");
    fmt::push_text(&mut line, missing);
    fmt::push_text(&mut line, ")\n");
    bytes::push_all(log, line.as_slice());
}

/// What is logged of a ping.
pub open spec fn ping_text(arg0: u64) -> Seq<u8> {
    fmt::text("[syscall] SYS_PING recibido desde ring 3 — arg0=0x"@) + fmt::hex(arg0 as nat)
        + fmt::text(". Volviendo a ring 3 vía sysret.\n"@)
}

/// What is logged of a call with an unknown number.
pub open spec fn unknown_text(num: u64) -> Seq<u8> {
    fmt::text("[syscall] número desconocido: "@) + fmt::decimal(num as nat) + fmt::text("\n"@)
}

/// What is logged of `fork`.
pub open spec fn fork_text(s: KernelState, s2: KernelState) -> Seq<u8> {
    match process::lookup(s.procs, s.current_pid) {
        None => fmt::text("[syscall] fork: PID actual ("@) + fmt::decimal(s.current_pid as nat)
            + fmt::text(") no está registrado en la tabla de procesos\n"@),
        Some(parent) => if s.pool.len() < 1 + mmu::frames_below(
            s.mem,
            parent.page_table,
            3,
            1,
            512,
        ) {
            fmt::text(FORK_NO_MEMORY@)
        } else if !stacks_fit(s) {
            stack_shortage()
        } else {
            fmt::text("[syscall] fork: PID "@) + fmt::decimal(s.current_pid as nat) + fmt::text(
                " -> hijo PID "@,
            ) + fmt::decimal(s.next_pid as nat) + fmt::text(" (PML4 nuevo @ 0x"@) + fmt::hex(
                s2.procs.last().page_table as nat,
            ) + fmt::text(")\n"@)
        },
    }
}

/// What is logged of `exit`.
pub open spec fn exit_text(pid: u64, code: int) -> Seq<u8> {
    fmt::text("[syscall] exit: PID "@) + fmt::decimal(pid as nat) + fmt::text(
        " terminó con código "@,
    ) + fmt::signed(code) + fmt::text("\n"@)
}

/// What is logged of an attempt to collect a child: nothing unless one was
/// collected and its code stored.
pub open spec fn collect_text(s: KernelState, caller: u64, out: Outcome) -> Seq<u8> {
    match process::zombie_child(s.procs, caller) {
        Some(i) => if out == Outcome::Halt {
            Seq::empty()
        } else {
            fmt::text("[syscall] wait: PID "@) + fmt::decimal(caller as nat) + fmt::text(
                " recogió al hijo PID "@,
            ) + fmt::decimal(s.procs[i].pid as nat) + fmt::text(" (código "@) + fmt::signed(
                s.procs[i].state->Zombie_0 as int,
            ) + fmt::text(") — memoria liberada\n"@)
        },
        None => Seq::empty(),
    }
}

/// What is logged of `kill`.
pub open spec fn kill_text(s: KernelState, frame: SyscallFrame) -> Seq<u8> {
    if !caps::within(caps::CAP_PROC_CTL, s.caps) {
        denied_text("SYS_KILL", caps::CAP_PROC_CTL, s.caps, "CAP_PROC_CTL")
    } else if !(process::lookup(s.procs, frame.arg0) matches Some(p) && p.state is Running) {
        fmt::text("[syscall] kill: PID "@) + fmt::decimal(s.current_pid as nat) + fmt::text(
            " -> PID "@,
        ) + fmt::decimal(frame.arg0 as nat) + fmt::text(" falló (no existe o ya era zombie)\n"@)
    } else {
        fmt::text("[syscall] kill: PID "@) + fmt::decimal(s.current_pid as nat) + fmt::text(
            " mandó señal "@,
        ) + fmt::decimal((frame.arg1 % 0x1_0000_0000) as nat) + fmt::text(" a PID "@)
            + fmt::decimal(frame.arg0 as nat) + fmt::text("\n"@)
    }
}

/// What is logged of the start of an image named `name`.
pub open spec fn start_text(s: KernelState, name: Seq<char>, image: Seq<u8>) -> Seq<u8> {
    match elf::prepared(s.mem, s.pool, s.cr3, image, USER_STACK_VIRT).2 {
        Err(Trouble::Load(e)) => fmt::text("[syscall] execve: carga de ELF falló: "@) + fmt::text(
            e@,
        ) + fmt::text("\n"@),
        Err(Trouble::NoStack) => fmt::text(EXEC_NO_STACK@),
        Err(Trouble::Stack(e)) => fmt::text(
            "[syscall] execve: fallo mapeando la pila de usuario: "@,
        ) + fmt::text(e@) + fmt::text("\n"@),
        Ok(_) => fmt::text("[syscall] execve: PID "@) + fmt::decimal(s.current_pid as nat)
            + fmt::text(" -> '"@) + fmt::text(name) + fmt::text("' cargado, entry=0x"@) + fmt::hex(
            bytes::le64(image, 24) as nat,
        ) + fmt::text(" (espacio de direcciones reemplazado)\n"@),
    }
}

/// What is logged of `execve`.
pub open spec fn exec_text(s: KernelState, frame: SyscallFrame) -> Seq<u8> {
    match user::name_from(s.mem, s.cr3, frame.arg0 as int, Seq::empty()) {
        None => Seq::empty(),
        Some(name) => {
            let text = vstd::utf8::decode_utf8(name);
            if !vstd::utf8::valid_utf8(name) {
                fmt::text(EXEC_BAD_NAME@)
            } else if !s.files.contains_key(text) {
                fmt::text("[syscall] execve: '"@) + fmt::text(text) + fmt::text(
                    "' no existe en el VFS\n"@,
                )
            } else {
                start_text(s, text, s.files[text])
            }
        },
    }
}

/// What is logged of a call.
pub open spec fn call_text(
    s: KernelState,
    frame: SyscallFrame,
    s2: KernelState,
    out: Outcome,
) -> Seq<u8> {
    if frame.num == SYS_PING {
        if caps::within(caps::CAP_STDIO, s.caps) {
            ping_text(frame.arg0)
        } else {
            denied_text("SYS_PING", caps::CAP_STDIO, s.caps, "CAP_STDIO")
        }
    } else if frame.num == SYS_GETPID {
        Seq::empty()
    } else if frame.num == SYS_FORK {
        if caps::within(caps::CAP_EXEC, s.caps) {
            fork_text(s, s2)
        } else {
            denied_text("SYS_FORK", caps::CAP_EXEC, s.caps, "CAP_EXEC")
        }
    } else if frame.num == SYS_EXECVE {
        if caps::within(caps::CAP_EXEC, s.caps) {
            exec_text(s, frame)
        } else {
            denied_text("SYS_EXECVE", caps::CAP_EXEC, s.caps, "CAP_EXEC")
        }
    } else if frame.num == SYS_EXIT {
        exit_text(s.current_pid, signal::signed32(frame.arg0 as int))
    } else if frame.num == SYS_WAIT {
        if process::parent_of_any(s.procs, s.current_pid) {
            collect_text(s, s.current_pid, out)
        } else {
            Seq::empty()
        }
    } else if frame.num == SYS_KILL {
        kill_text(s, frame)
    } else {
        unknown_text(frame.num)
    }
}

// --- stacks and tasks --------------------------------------------------------

/// Heap bytes for the two stacks of a task.
pub open spec fn stacks_size() -> int {
    2 * task::STACK_SIZE
}

/// Whether the heap has room for both: everything that was taken from it counts.
pub open spec fn stacks_fit(s: KernelState) -> bool {
    s.heap + s.blocks + stacks_size() <= HEAP_SIZE
}

/// What is used for stacks after stacks that do not both fit were asked for: the
/// first one may have been taken.
pub open spec fn heap_after_shortage(s: KernelState) -> u64 {
    if s.heap + s.blocks + task::STACK_SIZE <= HEAP_SIZE {
        (s.heap + task::STACK_SIZE) as u64
    } else {
        s.heap
    }
}

/// What is printed when a stack does not fit.
pub open spec fn stack_shortage() -> Seq<u8> {
    heap::exhausted_text(task::STACK_SIZE as u64, 1)
}

/// Takes a stack from the heap.
pub fn take_stack(k: &mut Kernel) -> (r: Option<u64>)
    requires
        old(k).wf(),
    ensures
        final(k).wf(),
        ({
            let used = old(k)@.heap + task::STACK_SIZE;
            if used + old(k)@.blocks <= HEAP_SIZE {
                &&& r == Some((old(k)@.heap_start + old(k)@.heap) as u64)
                &&& final(k)@ == (KernelState { heap: used as u64, ..old(k)@ })
            } else {
                r is None && final(k)@ == old(k)@
            }
        }),
{
    k.heap.allocate_beside(k.heap_start, task::STACK_SIZE as u64, 1, k.blocks)
}

/// The task of a new process, on stacks from the heap.
pub open spec fn process_task(s: KernelState, page_table: u64, pid: u64) -> Task {
    scheduler::spawned(
        s.tasks.len() as u64,
        (s.heap_start + s.heap) as u64,
        (s.heap_start + s.heap + task::STACK_SIZE) as u64,
        page_table,
        pid,
    )
}

/// Takes two stacks from the heap and adds a task for a process. Gives the slot
/// for the address of its start, `None` if the heap is used up.
fn spawn_on_heap(k: &mut Kernel, page_table: u64, pid: u64) -> (r: Option<u64>)
    requires
        old(k).wf(),
    ensures
        final(k).wf(),
        r is Some <==> stacks_fit(old(k)@),
        r matches Some(slot) ==> {
            let t = process_task(old(k)@, page_table, pid);
            &&& slot == t.context.rsp
            &&& final(k)@ == (KernelState {
                tasks: old(k)@.tasks.push(t),
                heap: (old(k)@.heap + stacks_size()) as u64,
                ..old(k)@
            })
        },
        r is None ==> final(k)@ == (KernelState {
            heap: heap_after_shortage(old(k)@),
            ..old(k)@
        }),
{
    let stack = take_stack(k)?;
    let kernel_stack = take_stack(k)?;
    let at = k.sched.tasks.len();
    scheduler::spawn_with_space(&mut k.sched, stack, kernel_stack, page_table, pid);
    Some(k.sched.tasks[at].context.rsp)
}

/// The state after [`process::spawn_process`] started a process.
pub open spec fn launched(
    s: KernelState,
    entry_point: u64,
    user_stack_top: u64,
    page_table: u64,
    parent_pid: u64,
) -> KernelState {
    let pid = s.next_pid;
    KernelState {
        next_pid: next_pid_after(pid),
        procs: s.procs.push(process::running(pid, parent_pid, page_table)),
        launch: LaunchHandoff { entry: entry_point, stack: user_stack_top },
        tasks: s.tasks.push(process_task(s, page_table, pid)),
        heap: (s.heap + stacks_size()) as u64,
        ..s
    }
}

pub open spec fn next_pid_after(pid: u64) -> u64 {
    if pid == u64::MAX {
        0
    } else {
        (pid + 1) as u64
    }
}

/// Registers a process and adds a task for it that is to enter ring 3 at
/// `entry_point`. Gives its PID and the slot for the address of the start of
/// the task. `None` if the heap is used up.
pub fn spawn_process(
    k: &mut Kernel,
    entry_point: u64,
    user_stack_top: u64,
    page_table: u64,
    parent_pid: u64,
) -> (r: Option<(u64, u64)>)
    requires
        old(k).wf(),
    ensures
        final(k).wf(),
        r is Some <==> stacks_fit(old(k)@),
        r matches Some((pid, slot)) ==> {
            &&& pid == old(k)@.next_pid
            &&& slot == process_task(old(k)@, page_table, pid).context.rsp
            &&& final(k)@ == launched(
                old(k)@,
                entry_point,
                user_stack_top,
                page_table,
                parent_pid,
            )
        },
        r is None ==> final(k)@ == (KernelState {
            tasks: old(k)@.tasks,
            heap: heap_after_shortage(old(k)@),
            ..launched(old(k)@, entry_point, user_stack_top, page_table, parent_pid)
        }),
{
    let pid = process::alloc_pid(&mut k.procs);
    process::register(&mut k.procs, pid, parent_pid, page_table);
    k.launch = LaunchHandoff { entry: entry_point, stack: user_stack_top };
    let slot = spawn_on_heap(k, page_table, pid)?;
    Some((pid, slot))
}

/// How the task of a launched process enters ring 3.
pub fn launch_trampoline(k: &Kernel) -> (r: IretFrame)
    ensures
        r == ring3::user_frame(k.launch.entry, k.launch.stack, None),
{
    ring3::enter_ring3(k.launch.entry, k.launch.stack)
}

/// How the child of a fork enters ring 3: where its parent goes on, but with 0
/// as the result of the call.
pub fn fork_child_trampoline(k: &Kernel) -> (r: IretFrame)
    ensures
        r == ring3::user_frame(k.fork.rip, k.fork.rsp, Some(0)),
{
    ring3::enter_ring3_with_rax(k.fork.rip, k.fork.rsp, 0)
}

// --- fork ----------------------------------------------------------------------

/// What `fork` does. The caller must be a registered process; its private
/// memory is copied, the copy gets a PID and a task, and the caller gets the
/// PID. The frames taken for a copy that does not fit stay taken. Without heap
/// for the stacks of the task the kernel cannot go on.
pub open spec fn forked(s: KernelState, frame: SyscallFrame, s2: KernelState, out: Outcome) -> bool {
    match process::lookup(s.procs, s.current_pid) {
        None => out == Outcome::Return(FAILED) && s2 == s,
        Some(parent) => {
            let needed = 1 + mmu::frames_below(s.mem, parent.page_table, 3, 1, 512);
            &&& mmu::writes_only_taken(s.mem, s.pool, s2.mem, s2.pool)
            &&& if s.pool.len() < needed {
                &&& out == Outcome::Return(FAILED)
                &&& s2 == KernelState { mem: s2.mem, pool: Set::empty(), ..s }
            } else {
                let pid = s.next_pid;
                let root = s2.procs.last().page_table;
                let fits = stacks_fit(s);
                &&& out == if fits {
                    Outcome::Spawned { pid, entry_slot: process_task(s, root, pid).context.rsp }
                } else {
                    Outcome::Halt
                }
                &&& s2 == KernelState {
                    mem: s2.mem,
                    pool: s2.pool,
                    next_pid: next_pid_after(pid),
                    procs: s.procs.push(
                        process::running(pid, s.current_pid, root),
                    ),
                    fork: ForkHandoff { pid, rip: frame.user_rip, rsp: s.user_rsp },
                    tasks: if fits {
                        s.tasks.push(process_task(s, root, pid))
                    } else {
                        s.tasks
                    },
                    heap: if fits {
                        (s.heap + stacks_size()) as u64
                    } else {
                        heap_after_shortage(s)
                    },
                    ..s
                }
                &&& s.pool.contains(root)
                &&& mmu::copy_of(s.mem, parent.page_table, s2.mem, root, 3, 1)
                &&& forall|f: u64| #[trigger]
                    mmu::owns(s2.mem, root, 3, 1, f) <==> s.pool.contains(f) && !s2.pool.contains(f)
                &&& mmu::wf_tree(s2.mem, root, 3)
                &&& pmm::takes_lowest(s.pool, s2.pool, needed)
            }
        },
    }
}

#[verifier::rlimit(30)]
fn sys_fork(k: &mut Kernel, frame: &SyscallFrame, log: &mut Vec<u8>) -> (r: Outcome)
    requires
        old(k).wf(),
        process::lookup(old(k)@.procs, old(k)@.current_pid) matches Some(p) ==> mmu::cloneable(
            old(k)@.mem,
            old(k)@.pool,
            p.page_table,
            3,
            1,
        ),
    ensures
        final(k).wf(),
        forked(old(k)@, *frame, final(k)@, r),
        final(log)@ == old(log)@ + fork_text(old(k)@, final(k)@),
{
    let parent_pid = process::current_pid(&k.procs);
    let parent = match process::find(&k.procs, parent_pid) {
        Some(p) => p,
        None => {
            fmt::push_text(log, "[syscall] fork: PID actual (");
            fmt::push_decimal(log, parent_pid);
            fmt::push_text(log, ") no está registrado en la tabla de procesos\n");
            assert(log@ =~= old(log)@ + fork_text(old(k)@, k@));
            return Outcome::Return(FAILED);
        },
    };
    let child_p4 = match mmu::clone_address_space(&mut k.mem, &mut k.pmm, parent.page_table) {
        Some(p4) => p4,
        None => {
            fmt::push_text(log, FORK_NO_MEMORY);
            return Outcome::Return(FAILED);
        },
    };
    let child_pid = process::alloc_pid(&mut k.procs);
    process::register(&mut k.procs, child_pid, parent_pid, child_p4);
    k.fork = ForkHandoff { pid: child_pid, rip: frame.user_rip, rsp: k.user_rsp };
    assert(k@.procs.last().page_table == child_p4);
    match spawn_on_heap(k, child_p4, child_pid) {
        Some(entry_slot) => {
            fmt::push_text(log, "[syscall] fork: PID ");
            fmt::push_decimal(log, parent_pid);
            fmt::push_text(log, " -> hijo PID ");
            fmt::push_decimal(log, child_pid);
            fmt::push_text(log, " (PML4 nuevo @ 0x");
            fmt::push_hex(log, child_p4);
            fmt::push_text(log, ")\n");
            assert(log@ =~= old(log)@ + fork_text(old(k)@, k@));
            Outcome::Spawned { pid: child_pid, entry_slot }
        },
        None => {
            heap::alloc_error(log, task::STACK_SIZE as u64, 1);
            Outcome::Halt
        },
    }
}

// --- exit, wait, kill -------------------------------------------------------------

/// What `exit` does: the caller becomes a zombie and never runs again.
pub open spec fn exited(s: KernelState, frame: SyscallFrame, s2: KernelState, out: Outcome) -> bool {
    &&& out == Outcome::Park
    &&& s2 == KernelState {
        procs: signal::zombified(
            s.procs,
            s.current_pid,
            signal::signed32(frame.arg0 as int) as i32,
        ),
        tasks: s.tasks.update(s.current as int, scheduler::finished(s.tasks[s.current as int])),
        ..s
    }
}

#[verifier::rlimit(30)]
fn sys_exit(k: &mut Kernel, frame: &SyscallFrame, log: &mut Vec<u8>) -> (r: Outcome)
    requires
        old(k).wf(),
    ensures
        final(k).wf(),
        exited(old(k)@, *frame, final(k)@, r),
        final(log)@ == old(log)@ + exit_text(
            old(k)@.current_pid,
            signal::signed32(frame.arg0 as int),
        ),
{
    let pid = process::current_pid(&k.procs);
    let code = signal::low_i32(frame.arg0);
    process::mark_zombie(&mut k.procs, pid, code);
    fmt::push_text(log, "[syscall] exit: PID ");
    fmt::push_decimal(log, pid);
    fmt::push_text(log, " terminó con código ");
    fmt::push_signed(log, code);
    fmt::push_text(log, "\n");
    assert(log@ =~= old(log)@ + exit_text(pid, code as int));
    scheduler::mark_current_finished(&mut k.sched);
    Outcome::Park
}

/// The free frames after what belongs to the address space at `root` was
/// released.
pub open spec fn released(m: Frames, pool: Set<u64>, root: u64) -> Set<u64> {
    pool.union(Set::new(|g: u64| g < pmm::MANAGED_BYTES && mmu::owns(m, root, 3, 1, g)))
}

/// One attempt of `caller` to collect a child: the first zombie child leaves the
/// table, its memory is released, and its exit code is stored at `status`
/// unless that is 0. Without a zombie child the caller has to wait.
pub open spec fn collected(
    s: KernelState,
    caller: u64,
    status: u64,
    s2: KernelState,
    out: Outcome,
) -> bool {
    match process::zombie_child(s.procs, caller) {
        None => out == Outcome::Wait && s2 == s,
        Some(i) => {
            let child = s.procs[i];
            let code = child.state->Zombie_0;
            let freed = KernelState {
                procs: s.procs.remove(i),
                pool: if child.space_released {
                    s.pool
                } else {
                    released(s.mem, s.pool, child.page_table)
                },
                ..s
            };
            if status == 0 {
                out == Outcome::Return(child.pid) && s2 == freed
            } else {
                match user::store_i32(s.mem, s.cr3, status as int, code) {
                    Some(m) => out == Outcome::Return(child.pid) && s2 == KernelState {
                        mem: m,
                        ..freed
                    },
                    None => out == Outcome::Halt && s2 == freed,
                }
            }
        },
    }
}

/// What an attempt to collect a child of `caller` needs of the state: the
/// tables that it walks are well formed.
pub open spec fn can_collect(s: KernelState, caller: u64, status: u64) -> bool {
    process::zombie_child(s.procs, caller) matches Some(i) ==> {
        &&& s.procs[i].space_released || mmu::wf_tree(s.mem, s.procs[i].page_table, 3)
        &&& status != 0 ==> mmu::wf_tree(s.mem, s.cr3, 3)
    }
}

/// A further attempt of `caller` to collect a child, after the turn came back
/// to it.
#[verifier::rlimit(30)]
pub fn resume_wait(k: &mut Kernel, caller: u64, status: u64, log: &mut Vec<u8>) -> (r: Outcome)
    requires
        old(k).wf(),
        can_collect(old(k)@, caller, status),
    ensures
        final(k).wf(),
        collected(old(k)@, caller, status, final(k)@, r),
        final(log)@ == old(log)@ + collect_text(old(k)@, caller, r),
{
    assert(log@ + Seq::<u8>::empty() =~= log@);
    let ghost s = k@;
    match process::reap_zombie(&mut k.procs, &k.mem, &mut k.pmm, caller) {
        Some((child_pid, exit_code)) => {
            proof {
                let i = process::zombie_child(s.procs, caller)->0;
                if s.procs[i].space_released {
                    assert(k@.pool =~= s.pool);
                } else {
                    assert(k@.pool =~= released(s.mem, s.pool, s.procs[i].page_table));
                }
            }
            if status != 0 {
                if !user::write_i32(&mut k.mem, k.cr3, status, exit_code) {
                    return Outcome::Halt;
                }
            }
            fmt::push_text(log, "[syscall] wait: PID ");
            fmt::push_decimal(log, caller);
            fmt::push_text(log, " recogió al hijo PID ");
            fmt::push_decimal(log, child_pid);
            fmt::push_text(log, " (código ");
            fmt::push_signed(log, exit_code);
            fmt::push_text(log, ") — memoria liberada\n");
            assert(log@ =~= old(log)@ + collect_text(s, caller, Outcome::Return(child_pid)));
            Outcome::Return(child_pid)
        },
        None => Outcome::Wait,
    }
}

/// What `wait` does: it fails if the caller has no child at all.
pub open spec fn waited(s: KernelState, frame: SyscallFrame, s2: KernelState, out: Outcome) -> bool {
    if !process::parent_of_any(s.procs, s.current_pid) {
        out == Outcome::Return(FAILED) && s2 == s
    } else {
        collected(s, s.current_pid, frame.arg0, s2, out)
    }
}

fn sys_wait(k: &mut Kernel, frame: &SyscallFrame, log: &mut Vec<u8>) -> (r: Outcome)
    requires
        old(k).wf(),
        can_collect(old(k)@, old(k)@.current_pid, frame.arg0),
    ensures
        final(k).wf(),
        waited(old(k)@, *frame, final(k)@, r),
        final(log)@ == old(log)@ + if process::parent_of_any(
            old(k)@.procs,
            old(k)@.current_pid,
        ) {
            collect_text(old(k)@, old(k)@.current_pid, r)
        } else {
            Seq::empty()
        },
{
    assert(log@ + Seq::<u8>::empty() =~= log@);
    let caller = process::current_pid(&k.procs);
    if !process::has_children(&k.procs, caller) {
        return Outcome::Return(FAILED);
    }
    resume_wait(k, caller, frame.arg0, log)
}

/// What `kill` does. It needs the capability for it, and a target that exists
/// and is not a zombie. The target becomes a zombie and never runs again; its
/// memory is released unless it is the caller, which does not return.
pub open spec fn killed(s: KernelState, frame: SyscallFrame, s2: KernelState, out: Outcome) -> bool {
    let target = frame.arg0;
    let sig = (frame.arg1 % 0x1_0000_0000) as u32;
    let alive = process::lookup(s.procs, target) matches Some(p) && p.state is Running;
    if !caps::within(caps::CAP_PROC_CTL, s.caps) || !alive {
        out == Outcome::Return(FAILED) && s2 == s
    } else {
        &&& out == if target == s.current_pid {
            Outcome::Park
        } else {
            Outcome::Return(0)
        }
        &&& s2 == KernelState {
            procs: signal::terminated(
                s.procs,
                target,
                signal::exit_code(sig) as i32,
                target != s.current_pid,
            ),
            tasks: scheduler::finish_pid(s.tasks, target),
            pool: if target == s.current_pid {
                s.pool
            } else {
                released(s.mem, s.pool, process::lookup(s.procs, target)->0.page_table)
            },
            ..s
        }
    }
}

#[verifier::rlimit(30)]
fn sys_kill(k: &mut Kernel, frame: &SyscallFrame, log: &mut Vec<u8>) -> (r: Outcome)
    requires
        old(k).wf(),
        caps::within(caps::CAP_PROC_CTL, old(k)@.caps) ==> can_kill(old(k)@, frame.arg0),
    ensures
        final(k).wf(),
        killed(old(k)@, *frame, final(k)@, r),
        final(log)@ == old(log)@ + kill_text(old(k)@, *frame),
{
    let ghost s = k@;
    if let Err(v) = k.caps.enforce(caps::CAP_PROC_CTL) {
        log_denied(log, "SYS_KILL", &v, "CAP_PROC_CTL");
        return Outcome::Return(FAILED);
    }
    let target = frame.arg0;
    let sig = (frame.arg1 % 0x1_0000_0000) as u32;
    let caller = process::current_pid(&k.procs);
    fmt::push_text(log, "[syscall] kill: PID ");
    fmt::push_decimal(log, caller);
    if !signal::deliver_default(&mut k.procs, &mut k.sched, &k.mem, &mut k.pmm, target, sig) {
        fmt::push_text(log, " -> PID ");
        fmt::push_decimal(log, target);
        fmt::push_text(log, " falló (no existe o ya era zombie)\n");
        assert(log@ =~= old(log)@ + kill_text(s, *frame));
        return Outcome::Return(FAILED);
    }
    fmt::push_text(log, " mandó señal ");
    fmt::push_decimal(log, sig as u64);
    fmt::push_text(log, " a PID ");
    fmt::push_decimal(log, target);
    fmt::push_text(log, "\n");
    assert(log@ =~= old(log)@ + kill_text(s, *frame));
    proof {
        if target == caller {
            assert(k@.pool =~= s.pool);
        } else {
            assert(k@.pool =~= released(
                s.mem,
                s.pool,
                process::lookup(s.procs, target)->0.page_table,
            ));
        }
    }
    if target == caller {
        Outcome::Park
    } else {
        Outcome::Return(0)
    }
}

/// What a signal to `target` needs of the state: the tables that are released
/// are well formed.
pub open spec fn can_kill(s: KernelState, target: u64) -> bool {
    process::lookup(s.procs, target) matches Some(p) ==> (p.state is Running && target
        != s.current_pid ==> mmu::wf_tree(s.mem, p.page_table, 3))
}

// --- execve --------------------------------------------------------------------------

/// The table after the process `pid` got another address space.
pub open spec fn rerooted(s: Seq<Pcb>, pid: u64, page_table: u64) -> Seq<Pcb> {
    match process::position(s, pid) {
        Some(i) => s.update(i, Pcb { page_table, ..s[i] }),
        None => s,
    }
}

/// What starting the image `image` in place of the running process does. The
/// image is loaded into a new address space, which gets a page of stack; then
/// the process continues in it at the entry point. On failure the frames taken
/// until then stay taken, and the process goes on as before.
pub open spec fn started(s: KernelState, image: Seq<u8>, s2: KernelState, out: Outcome) -> bool {
    let (m2, p2, outcome) = elf::prepared(s.mem, s.pool, s.cr3, image, USER_STACK_VIRT);
    let root = pmm::lowest_frame(s.pool);
    if outcome is Err {
        out == Outcome::Return(FAILED) && s2 == KernelState { mem: m2, pool: p2, ..s }
    } else {
        &&& out == Outcome::Enter {
            root,
            frame: ring3::user_frame(
                bytes::le64(image, 24) as u64,
                (USER_STACK_VIRT + 4096) as u64,
                None,
            ),
        }
        &&& s2 == KernelState {
            mem: m2,
            pool: p2,
            cr3: root,
            procs: rerooted(s.procs, s.current_pid, root),
            ..s
        }
    }
}

#[verifier::rlimit(30)]
fn start_image(k: &mut Kernel, name: &str, image: &[u8], log: &mut Vec<u8>) -> (r: Outcome)
    requires
        old(k).wf(),
        elf::fillable(old(k)@.mem, old(k)@.pool, old(k)@.cr3),
    ensures
        final(k).wf(),
        started(old(k)@, image@, final(k)@, r),
        final(log)@ == old(log)@ + start_text(old(k)@, name@, image@),
{
    let loaded = match elf::load_with_stack(
        &mut k.mem,
        &mut k.pmm,
        k.cr3,
        image,
        USER_STACK_VIRT,
    ) {
        Ok(l) => l,
        Err(t) => {
            match t {
                Trouble::Load(e) => {
                    fmt::push_text(log, "[syscall] execve: carga de ELF falló: ");
                    fmt::push_text(log, e);
                    fmt::push_text(log, "\n");
                },
                Trouble::NoStack => {
                    fmt::push_text(log, EXEC_NO_STACK);
                },
                Trouble::Stack(e) => {
                    fmt::push_text(log, "[syscall] execve: fallo mapeando la pila de usuario: ");
                    fmt::push_text(log, e);
                    fmt::push_text(log, "\n");
                },
            }
            assert(log@ =~= old(log)@ + start_text(old(k)@, name@, image@));
            return Outcome::Return(FAILED);
        },
    };
    let pid = process::current_pid(&k.procs);
    fmt::push_text(log, "[syscall] execve: PID ");
    fmt::push_decimal(log, pid);
    fmt::push_text(log, " -> '");
    fmt::push_text(log, name);
    fmt::push_text(log, "' cargado, entry=0x");
    fmt::push_hex(log, loaded.entry_point);
    fmt::push_text(log, " (espacio de direcciones reemplazado)\n");
    assert(log@ =~= old(log)@ + start_text(old(k)@, name@, image@));
    process::set_page_table(&mut k.procs, pid, loaded.page_table);
    k.cr3 = loaded.page_table;
    Outcome::Enter {
        root: loaded.page_table,
        frame: ring3::enter_ring3(loaded.entry_point, USER_STACK_VIRT + 4096),
    }
}

/// What `execve` does: it reads the name of a file from the memory of the
/// caller and starts that file. A name in memory that is not there stops the
/// kernel; a name that is not text or names no file is an error.
pub open spec fn execed(s: KernelState, frame: SyscallFrame, s2: KernelState, out: Outcome) -> bool {
    match user::name_from(s.mem, s.cr3, frame.arg0 as int, Seq::empty()) {
        None => out == Outcome::Halt && s2 == s,
        Some(name) => {
            let text = vstd::utf8::decode_utf8(name);
            if !vstd::utf8::valid_utf8(name) || !s.files.contains_key(text) {
                out == Outcome::Return(FAILED) && s2 == s
            } else {
                started(s, s.files[text], s2, out)
            }
        },
    }
}

/// What `execve` needs of the state: the tables of the caller, through which it
/// reads the name, are well formed, and where that names a file, no free frame is
/// one of them.
pub open spec fn can_exec(s: KernelState, frame: SyscallFrame) -> bool {
    &&& mmu::wf_tree(s.mem, s.cr3, 3)
    &&& user::name_from(s.mem, s.cr3, frame.arg0 as int, Seq::empty()) matches Some(name) ==> {
        vstd::utf8::valid_utf8(name) && s.files.contains_key(vstd::utf8::decode_utf8(name))
            ==> elf::fillable(s.mem, s.pool, s.cr3)
    }
}

#[verifier::rlimit(30)]
fn sys_execve(k: &mut Kernel, frame: &SyscallFrame, log: &mut Vec<u8>) -> (r: Outcome)
    requires
        old(k).wf(),
        can_exec(old(k)@, *frame),
    ensures
        final(k).wf(),
        execed(old(k)@, *frame, final(k)@, r),
        final(log)@ == old(log)@ + exec_text(old(k)@, *frame),
{
    assert(log@ + Seq::<u8>::empty() =~= log@);
    let name_bytes = match user::read_name(&k.mem, k.cr3, frame.arg0) {
        Some(n) => n,
        None => {
            return Outcome::Halt;
        },
    };
    let name = match text::utf8(name_bytes.as_slice()) {
        Some(n) => n,
        None => {
            fmt::push_text(log, EXEC_BAD_NAME);
            return Outcome::Return(FAILED);
        },
    };
    let image = match vfs::read(&k.fs, name) {
        Some(b) => b,
        None => {
            fmt::push_text(log, "[syscall] execve: '");
            fmt::push_text(log, name);
            fmt::push_text(log, "' no existe en el VFS\n");
            assert(log@ =~= old(log)@ + exec_text(old(k)@, *frame));
            return Outcome::Return(FAILED);
        },
    };
    start_image(k, name, image.as_slice(), log)
}

// --- the dispatcher ---------------------------------------------------------------------

/// What a call needs of the state: the page tables that it walks, copies or
/// releases are well formed. A call that is refused needs nothing.
pub open spec fn ready(s: KernelState, frame: SyscallFrame) -> bool {
    let may_exec = caps::within(caps::CAP_EXEC, s.caps);
    if frame.num == SYS_FORK {
        may_exec ==> (process::lookup(s.procs, s.current_pid) matches Some(p) ==> mmu::cloneable(
            s.mem,
            s.pool,
            p.page_table,
            3,
            1,
        ))
    } else if frame.num == SYS_EXECVE {
        may_exec ==> can_exec(s, frame)
    } else if frame.num == SYS_WAIT {
        can_collect(s, s.current_pid, frame.arg0)
    } else if frame.num == SYS_KILL {
        caps::within(caps::CAP_PROC_CTL, s.caps) ==> can_kill(s, frame.arg0)
    } else {
        true
    }
}

/// What a call does. The calls for the console and for processes need a
/// capability; without it they fail and change nothing. So does a call with an
/// unknown number.
pub open spec fn dispatched(s: KernelState, frame: SyscallFrame, s2: KernelState, out: Outcome) -> bool {
    let failed = out == Outcome::Return(FAILED) && s2 == s;
    if frame.num == SYS_PING {
        if caps::within(caps::CAP_STDIO, s.caps) {
            out == Outcome::Return(PONG) && s2 == s
        } else {
            failed
        }
    } else if frame.num == SYS_GETPID {
        out == Outcome::Return(s.current_pid) && s2 == s
    } else if frame.num == SYS_FORK {
        if caps::within(caps::CAP_EXEC, s.caps) {
            forked(s, frame, s2, out)
        } else {
            failed
        }
    } else if frame.num == SYS_EXECVE {
        if caps::within(caps::CAP_EXEC, s.caps) {
            execed(s, frame, s2, out)
        } else {
            failed
        }
    } else if frame.num == SYS_EXIT {
        exited(s, frame, s2, out)
    } else if frame.num == SYS_WAIT {
        waited(s, frame, s2, out)
    } else if frame.num == SYS_KILL {
        killed(s, frame, s2, out)
    } else {
        failed
    }
}

/// Performs a system call, and logs what there is to say of it.
#[verifier::rlimit(30)]
pub fn syscall_dispatch(k: &mut Kernel, frame: &SyscallFrame, log: &mut Vec<u8>) -> (r: Outcome)
    requires
        old(k).wf(),
        ready(old(k)@, *frame),
    ensures
        final(k).wf(),
        dispatched(old(k)@, *frame, final(k)@, r),
        final(log)@ == old(log)@ + call_text(old(k)@, *frame, final(k)@, r),
{
    assert(log@ + Seq::<u8>::empty() =~= log@);
    if frame.num == SYS_PING {
        if let Err(v) = k.caps.enforce(caps::CAP_STDIO) {
            log_denied(log, "SYS_PING", &v, "CAP_STDIO");
            return Outcome::Return(FAILED);
        }
        fmt::push_text(log, "[syscall] SYS_PING recibido desde ring 3 — arg0=0x");
        fmt::push_hex(log, frame.arg0);
        fmt::push_text(log, ". Volviendo a ring 3 vía sysret.\n");
        assert(log@ =~= old(log)@ + ping_text(frame.arg0));
        Outcome::Return(PONG)
    } else if frame.num == SYS_GETPID {
        Outcome::Return(process::current_pid(&k.procs))
    } else if frame.num == SYS_FORK {
        if let Err(v) = k.caps.enforce(caps::CAP_EXEC) {
            log_denied(log, "SYS_FORK", &v, "CAP_EXEC");
            return Outcome::Return(FAILED);
        }
        sys_fork(k, frame, log)
    } else if frame.num == SYS_EXECVE {
        if let Err(v) = k.caps.enforce(caps::CAP_EXEC) {
            log_denied(log, "SYS_EXECVE", &v, "CAP_EXEC");
            return Outcome::Return(FAILED);
        }
        sys_execve(k, frame, log)
    } else if frame.num == SYS_EXIT {
        sys_exit(k, frame, log)
    } else if frame.num == SYS_WAIT {
        sys_wait(k, frame, log)
    } else if frame.num == SYS_KILL {
        sys_kill(k, frame, log)
    } else {
        fmt::push_text(log, "[syscall] número desconocido: ");
        fmt::push_decimal(log, frame.num);
        fmt::push_text(log, "\n");
        assert(log@ =~= old(log)@ + unknown_text(frame.num));
        Outcome::Return(FAILED)
    }
}

/// A call without the capability it needs is answered with failure and leaves
/// everything as it was.
pub proof fn law_denied_call_changes_nothing(
    s: KernelState,
    frame: SyscallFrame,
    s2: KernelState,
    out: Outcome,
)
    requires
        dispatched(s, frame, s2, out),
        ({
            ||| frame.num == SYS_PING && !caps::within(caps::CAP_STDIO, s.caps)
            ||| frame.num == SYS_FORK && !caps::within(caps::CAP_EXEC, s.caps)
            ||| frame.num == SYS_EXECVE && !caps::within(caps::CAP_EXEC, s.caps)
            ||| frame.num == SYS_KILL && !caps::within(caps::CAP_PROC_CTL, s.caps)
        }),
    ensures
        out == Outcome::Return(FAILED),
        s2 == s,
{
}

/// No call widens the capabilities of the caller.
pub proof fn law_calls_keep_capabilities(
    s: KernelState,
    frame: SyscallFrame,
    s2: KernelState,
    out: Outcome,
)
    requires
        dispatched(s, frame, s2, out),
    ensures
        s2.caps == s.caps,
{
}

/// A process that may start programs and hands `execve` the address of a name,
/// zero-terminated or of 64 bytes, gets the file of that very name and no other:
/// if there is none the call fails and changes nothing. If there is one, the call
/// fails or goes on at the entry point that the file states, with the stack
/// pointer at the end of the new stack, in the new address space, which then is
/// the active one and that of the process.
pub proof fn law_execve_starts_the_named_file(
    s: KernelState,
    frame: SyscallFrame,
    name: Seq<u8>,
    s2: KernelState,
    out: Outcome,
)
    requires
        frame.num == 59,
        s.caps / 8 % 2 == 1,
        forall|i: int|
            0 <= i < name.len() ==> #[trigger] name[i] != 0 && user::byte_at(
                s.mem,
                s.cr3,
                frame.arg0 + i,
            ) == Some(name[i]),
        name.len() == 64 || (name.len() < 64 && user::byte_at(
            s.mem,
            s.cr3,
            frame.arg0 + name.len(),
        ) == Some(0u8)),
        dispatched(s, frame, s2, out),
    ensures
        !vstd::utf8::valid_utf8(name) || !s.files.contains_key(vstd::utf8::decode_utf8(name))
            ==> out == Outcome::Return(u64::MAX) && s2 == s,
        vstd::utf8::valid_utf8(name) && s.files.contains_key(vstd::utf8::decode_utf8(name)) ==> {
            let image = s.files[vstd::utf8::decode_utf8(name)];
            let (m2, p2, outcome) = elf::prepared(s.mem, s.pool, s.cr3, image, 0xC0_0000_0000);
            &&& s2.mem == m2
            &&& s2.pool == p2
            &&& s2.files == s.files
            &&& s2.tasks == s.tasks
            &&& s2.current_pid == s.current_pid
            &&& outcome is Err ==> out == Outcome::Return(u64::MAX) && s2.cr3 == s.cr3 && s2.procs
                == s.procs
            &&& outcome is Ok ==> out is Enter && out->root == pmm::lowest_frame(s.pool) && s2.cr3
                == out->root && out->frame.rip == bytes::le64(image, 24) && out->frame.rsp
                == 0xC0_0000_1000 && out->frame.cs == 0x23 && out->frame.ss == 0x1B
                && out->frame.rflags == 0x202 && (forall|i: int|
                0 <= i < s.procs.len() && (#[trigger] s.procs[i]).pid == s.current_pid && (forall|
                    j: int,
                |
                    0 <= j < i ==> (#[trigger] s.procs[j]).pid != s.current_pid) ==> s2.procs
                    == s.procs.update(i, Pcb { page_table: out->root, ..s.procs[i] }))
        },
{
    caps::law_each_capability_is_a_bit(0, s.caps);
    user::law_name_is_read_whole(s.mem, s.cr3, frame.arg0 as int, name);
    assert forall|i: int|
        0 <= i < s.procs.len() && (#[trigger] s.procs[i]).pid == s.current_pid && (forall|j: int|
            0 <= j < i ==> (#[trigger] s.procs[j]).pid != s.current_pid) implies process::position(
        s.procs,
        s.current_pid,
    ) == Some(i) by {
        assert(process::is_first(s.procs, s.current_pid, i));
        process::lemma_position(s.procs, s.current_pid, i);
    }
}

/// `exit` with `c` leaves the low 32 bits of `c`, as a signed number, in the entry
/// of the caller, which is a zombie from then on, and finishes the running task.
/// Nothing else changes, and the caller does not go on.
pub proof fn law_exit_leaves_its_code(
    s: KernelState,
    frame: SyscallFrame,
    i: int,
    s2: KernelState,
    out: Outcome,
)
    requires
        frame.num == 60,
        0 <= i < s.procs.len(),
        s.procs[i].pid == s.current_pid,
        forall|j: int| 0 <= j < i ==> (#[trigger] s.procs[j]).pid != s.current_pid,
        0 <= s.current < s.tasks.len(),
        dispatched(s, frame, s2, out),
    ensures
        out is Park,
        s2.procs.len() == s.procs.len(),
        s2.procs[i].state is Zombie,
        (frame.arg0 - s2.procs[i].state->Zombie_0) % 0x1_0000_0000 == 0,
        s2.procs[i].pid == s.procs[i].pid,
        s2.procs[i].parent_pid == s.procs[i].parent_pid,
        s2.procs[i].page_table == s.procs[i].page_table,
        s2.procs[i].space_released == s.procs[i].space_released,
        forall|j: int| 0 <= j < s.procs.len() && j != i ==> #[trigger] s2.procs[j] == s.procs[j],
        s2.tasks.len() == s.tasks.len(),
        s2.tasks[s.current as int].state == task::TaskState::Finished,
        forall|j: int|
            0 <= j < s.tasks.len() && j != s.current ==> #[trigger] s2.tasks[j] == s.tasks[j],
        s2.mem == s.mem,
        s2.pool == s.pool,
        s2.files == s.files,
{
    assert(process::is_first(s.procs, s.current_pid, i));
    process::lemma_position(s.procs, s.current_pid, i);
    let low = frame.arg0 as int % 0x1_0000_0000;
    vstd::arithmetic::div_mod::lemma_fundamental_div_mod(frame.arg0 as int, 0x1_0000_0000);
}

/// `wait` with no child fails. With children of which none has ended it passes
/// the turn on and changes nothing. Otherwise it takes the first one that has
/// ended out of the table and returns its PID, and where an address was given it
/// stores the code there.
pub proof fn law_wait_collects_the_ended_child(
    s: KernelState,
    frame: SyscallFrame,
    s2: KernelState,
    out: Outcome,
)
    requires
        frame.num == 61,
        dispatched(s, frame, s2, out),
    ensures
        (forall|j: int| 0 <= j < s.procs.len() ==> (#[trigger] s.procs[j]).parent_pid != s.current_pid)
            ==> out == Outcome::Return(u64::MAX) && s2 == s,
        (exists|j: int| 0 <= j < s.procs.len() && (#[trigger] s.procs[j]).parent_pid == s.current_pid)
            && (forall|j: int|
            0 <= j < s.procs.len() && (#[trigger] s.procs[j]).parent_pid == s.current_pid
                ==> s.procs[j].state is Running) ==> out is Wait && s2 == s,
        forall|i: int|
            0 <= i < s.procs.len() && (#[trigger] s.procs[i]).parent_pid == s.current_pid
                && s.procs[i].state is Zombie && (forall|j: int|
                0 <= j < i ==> (#[trigger] s.procs[j]).parent_pid != s.current_pid
                    || s.procs[j].state is Running) ==> {
                let stored = user::store_i32(
                    s.mem,
                    s.cr3,
                    frame.arg0 as int,
                    s.procs[i].state->Zombie_0,
                );
                &&& s2.procs == s.procs.take(i) + s.procs.skip(i + 1)
                &&& s2.tasks == s.tasks
                &&& s2.files == s.files
                &&& frame.arg0 == 0 ==> out == Outcome::Return(s.procs[i].pid) && s2.mem == s.mem
                &&& frame.arg0 != 0 && stored is Some ==> out == Outcome::Return(s.procs[i].pid)
                    && s2.mem == stored->0
                &&& s.procs[i].space_released ==> s2.pool == s.pool
                &&& !s.procs[i].space_released ==> forall|g: u64| #[trigger]
                    s2.pool.contains(g) <==> s.pool.contains(g) || (g < pmm::MANAGED_BYTES
                        && mmu::owns(s.mem, s.procs[i].page_table, 3, 1, g))
            },
{
    process::law_first_zombie_is_found(s.procs, s.current_pid);
    assert forall|i: int|
        0 <= i < s.procs.len() && (#[trigger] s.procs[i]).parent_pid == s.current_pid
            && s.procs[i].state is Zombie && (forall|j: int|
            0 <= j < i ==> (#[trigger] s.procs[j]).parent_pid != s.current_pid
                || s.procs[j].state is Running) implies s2.procs == s.procs.take(i) + s.procs.skip(
        i + 1,
    ) by {
        assert(process::zombie_child(s.procs, s.current_pid) == Some(i));
        assert(s.procs.remove(i) =~= s.procs.take(i) + s.procs.skip(i + 1));
    }
    if exists|j: int|
        0 <= j < s.procs.len() && (#[trigger] s.procs[j]).parent_pid == s.current_pid {
        if forall|j: int|
            0 <= j < s.procs.len() && (#[trigger] s.procs[j]).parent_pid == s.current_pid
                ==> s.procs[j].state is Running {
            assert forall|j: int| 0 <= j < s.procs.len() implies (#[trigger] s.procs[j]).parent_pid
                != s.current_pid || s.procs[j].state is Running by {}
        }
    }
}

/// `kill` ends a process that runs and no other: with a signal below 2^31 - 128
/// its entry holds 128 and the number of the signal, and the first of its tasks
/// is finished. The memory of another process is free then; the caller's own
/// stays until it is collected, and the caller does not go on.
pub proof fn law_kill_ends_the_process(
    s: KernelState,
    frame: SyscallFrame,
    i: int,
    s2: KernelState,
    out: Outcome,
)
    requires
        frame.num == 62,
        s.caps / 512 % 2 == 1,
        0 <= i < s.procs.len(),
        s.procs[i].pid == frame.arg0,
        forall|j: int| 0 <= j < i ==> (#[trigger] s.procs[j]).pid != frame.arg0,
        frame.arg1 < 0x7FFF_FF80,
        dispatched(s, frame, s2, out),
    ensures
        s.procs[i].state is Zombie ==> out == Outcome::Return(u64::MAX) && s2 == s,
        s.procs[i].state is Running ==> {
            let own = frame.arg0 == s.current_pid;
            &&& own ==> out is Park
            &&& !own ==> out == Outcome::Return(0)
            &&& s2.procs == s.procs.update(
                i,
                Pcb {
                    state: process::ProcessState::Zombie((128 + frame.arg1) as i32),
                    space_released: !own || s.procs[i].space_released,
                    ..s.procs[i]
                },
            )
            &&& forall|t: int|
                0 <= t < s.tasks.len() && (#[trigger] s.tasks[t]).pid == frame.arg0 && (forall|u: int|
                    0 <= u < t ==> (#[trigger] s.tasks[u]).pid != frame.arg0) ==> s2.tasks
                    == s.tasks.update(
                    t,
                    Task { state: task::TaskState::Finished, ..s.tasks[t] },
                )
            &&& (forall|u: int| 0 <= u < s.tasks.len() ==> (#[trigger] s.tasks[u]).pid != frame.arg0)
                ==> s2.tasks == s.tasks
            &&& own ==> s2.pool == s.pool
            &&& !own ==> forall|g: u64| #[trigger]
                s2.pool.contains(g) <==> s.pool.contains(g) || (g < pmm::MANAGED_BYTES && mmu::owns(
                    s.mem,
                    s.procs[i].page_table,
                    3,
                    1,
                    g,
                ))
            &&& s2.mem == s.mem
            &&& s2.files == s.files
            &&& s2.current_pid == s.current_pid
        },
{
    caps::law_each_capability_is_a_bit(0, s.caps);
    assert(process::is_first(s.procs, frame.arg0, i));
    process::lemma_position(s.procs, frame.arg0, i);
    assert forall|t: int|
        0 <= t < s.tasks.len() && (#[trigger] s.tasks[t]).pid == frame.arg0 && (forall|u: int|
            0 <= u < t ==> (#[trigger] s.tasks[u]).pid != frame.arg0) implies scheduler::finish_pid(
        s.tasks,
        frame.arg0,
    ) == s.tasks.update(t, Task { state: task::TaskState::Finished, ..s.tasks[t] }) by {
        assert(scheduler::is_task_of(s.tasks, frame.arg0, t));
        let k = choose|k: int| scheduler::is_task_of(s.tasks, frame.arg0, k);
        assert(scheduler::is_task_of(s.tasks, frame.arg0, k));
        assert(k == t) by {
            if k < t {
                assert(s.tasks[k].pid != frame.arg0);
            } else if t < k {
                assert(s.tasks[t].pid != frame.arg0);
            }
        }
    }
}

/// A process that may start programs, is in the table and has the memory and the
/// heap for it gets a child: the PID is the next one and the caller the parent;
/// it goes on where the caller does, on the same stack pointer, in a task and an
/// address space of its own. From the first 512 GiB on, each address leads to a
/// byte with the same content there as in the space of the caller, with the same
/// flags.
pub proof fn law_fork_makes_a_child(
    s: KernelState,
    frame: SyscallFrame,
    i: int,
    s2: KernelState,
    out: Outcome,
    v: u64,
)
    requires
        frame.num == 57,
        s.caps / 8 % 2 == 1,
        0 <= i < s.procs.len(),
        s.procs[i].pid == s.current_pid,
        forall|j: int| 0 <= j < i ==> (#[trigger] s.procs[j]).pid != s.current_pid,
        s.pool.len() >= 1 + mmu::frames_below(s.mem, s.procs[i].page_table, 3, 1, 512),
        s.heap + s.blocks + 2 * 16384 <= HEAP_SIZE,
        s.heap_start + HEAP_SIZE <= u64::MAX,
        s.next_pid < u64::MAX,
        0x80_0000_0000 <= v < 0x1_0000_0000_0000,
        dispatched(s, frame, s2, out),
    ensures
        out is Spawned,
        out->pid == s.next_pid,
        s2.next_pid == s.next_pid + 1,
        s2.current_pid == s.current_pid,
        s2.cr3 == s.cr3,
        s2.files == s.files,
        s2.procs.len() == s.procs.len() + 1,
        s2.procs.take(s.procs.len() as int) == s.procs,
        s2.procs.last().pid == s.next_pid,
        s2.procs.last().parent_pid == s.current_pid,
        s2.procs.last().state is Running,
        !s2.procs.last().space_released,
        s2.fork.pid == s.next_pid,
        s2.fork.rip == frame.user_rip,
        s2.fork.rsp == s.user_rsp,
        s2.tasks.len() == s.tasks.len() + 1,
        s2.tasks.take(s.tasks.len() as int) == s.tasks,
        s2.tasks.last().pid == s.next_pid,
        s2.tasks.last().page_table == s2.procs.last().page_table,
        s2.tasks.last().state == task::TaskState::Ready,
        s2.tasks.last().context.rsp == out->entry_slot,
        s.heap_start + s.heap <= out->entry_slot,
        out->entry_slot + 16 <= s.heap_start + s.heap + 16384,
        s.heap_start + s.heap + 16384 < s2.tasks.last().kernel_stack_top,
        s2.tasks.last().kernel_stack_top <= s.heap_start + s.heap + 2 * 16384,
        s2.heap == s.heap + 2 * 16384,
        s.pool.contains(s2.procs.last().page_table),
        match (
            mmu::lookup(s.mem, s.procs[i].page_table, 3, v),
            mmu::lookup(s2.mem, s2.procs.last().page_table, 3, v),
        ) {
            (None, None) => true,
            (Some((a, fl)), Some((a2, fl2))) => fl == fl2 && a2 % 4096 == a % 4096 && (a2 == a
                || s2.mem[(a2 - a2 % 4096) as u64] == s.mem[(a - a % 4096) as u64]),
            _ => false,
        },
        forall|g: u64|
            s.mem.contains_key(g) && !s.pool.contains(g) ==> #[trigger] s2.mem[g] == s.mem[g],
{
    caps::law_each_capability_is_a_bit(0, s.caps);
    assert(process::is_first(s.procs, s.current_pid, i));
    process::lemma_position(s.procs, s.current_pid, i);
    assert(forked(s, frame, s2, out));
    assert(stacks_fit(s));
    task::law_stack_layout(
        (s.heap_start + s.heap) as u64,
        (s.heap_start + s.heap + task::STACK_SIZE) as u64,
    );
    assert(s2.procs.take(s.procs.len() as int) =~= s.procs);
    assert(s2.tasks.take(s.tasks.len() as int) =~= s.tasks);
    assert(mmu::index(v, 3) >= 1);
    mmu::law_copy_translates(
        s.mem,
        s.procs[i].page_table,
        s2.mem,
        s2.procs.last().page_table,
        3,
        1,
        v,
    );
}

/// A process learns its own PID; a ping is answered where its capability is held;
/// every other number than those of the seven calls fails. None of these changes
/// anything.
pub proof fn law_plain_calls_answer(
    s: KernelState,
    frame: SyscallFrame,
    s2: KernelState,
    out: Outcome,
)
    requires
        dispatched(s, frame, s2, out),
        frame.num == 1 || frame.num == 39 || !(57 <= frame.num <= 62 && frame.num != 58),
    ensures
        s2 == s,
        frame.num == 39 ==> out == Outcome::Return(s.current_pid),
        frame.num == 1 && s.caps % 2 == 1 ==> out == Outcome::Return(
            0xC0FFEE,
        ),
        frame.num == 1 && s.caps % 2 == 0 ==> out == Outcome::Return(
            u64::MAX,
        ),
        frame.num != 1 && frame.num != 39 ==> out == Outcome::Return(u64::MAX),
{
    caps::law_each_capability_is_a_bit(0, s.caps);
}

/// A process that is launched gets the next PID, the given space and parent, and
/// a task of its own; it starts at the given entry point on the given stack. What
/// was there stays.
pub proof fn law_launch_starts_a_process(
    s: KernelState,
    entry_point: u64,
    user_stack_top: u64,
    page_table: u64,
    parent_pid: u64,
)
    requires
        s.next_pid < u64::MAX,
        s.heap + 32768 <= HEAP_SIZE,
        s.heap_start + HEAP_SIZE <= u64::MAX,
    ensures
        ({
            let s2 = launched(s, entry_point, user_stack_top, page_table, parent_pid);
            let p = s2.procs.last();
            let t = s2.tasks.last();
            &&& s2.next_pid == s.next_pid + 1
            &&& s2.procs.drop_last() == s.procs
            &&& p.pid == s.next_pid && p.parent_pid == parent_pid && p.page_table == page_table
            &&& p.state is Running && !p.space_released
            &&& s2.tasks.drop_last() == s.tasks
            &&& t.pid == s.next_pid && t.page_table == page_table
            &&& t.state == task::TaskState::Ready
            &&& s.heap_start + s.heap <= t.context.rsp < s.heap_start + s.heap + 16384
                < t.kernel_stack_top <= s.heap_start + s2.heap
            &&& s2.heap == s.heap + 32768
            &&& s2.launch.entry == entry_point && s2.launch.stack == user_stack_top
            &&& s2.mem == s.mem && s2.pool == s.pool && s2.files == s.files && s2.caps == s.caps
            &&& s2.cr3 == s.cr3 && s2.current_pid == s.current_pid && s2.current == s.current
        }),
{
    let s2 = launched(s, entry_point, user_stack_top, page_table, parent_pid);
    task::law_stack_layout(
        (s.heap_start + s.heap) as u64,
        (s.heap_start + s.heap + task::STACK_SIZE) as u64,
    );
    assert(s2.procs.drop_last() =~= s.procs);
    assert(s2.tasks.drop_last() =~= s.tasks);
}

/// What a process exits with is what its parent learns: once the child, of whose
/// elder siblings none is a zombie, has exited with `c`, a `wait` of the parent
/// returns the PID of the child, takes its entry out of the table and stores the
/// low 32 bits of `c` where it was asked to.
pub proof fn law_parent_learns_the_exit_code(
    s: KernelState,
    exit: SyscallFrame,
    i: int,
    s2: KernelState,
    out: Outcome,
    s3: KernelState,
    wait: SyscallFrame,
    s4: KernelState,
    out2: Outcome,
)
    requires
        exit.num == 60,
        0 <= i < s.procs.len(),
        s.procs[i].pid == s.current_pid,
        forall|j: int| 0 <= j < i ==> (#[trigger] s.procs[j]).pid != s.current_pid,
        forall|j: int|
            0 <= j < i ==> (#[trigger] s.procs[j]).parent_pid != s.procs[i].parent_pid
                || s.procs[j].state is Running,
        0 <= s.current < s.tasks.len(),
        dispatched(s, exit, s2, out),
        s3.procs == s2.procs,
        s3.current_pid == s.procs[i].parent_pid,
        wait.num == 61,
        dispatched(s3, wait, s4, out2),
    ensures
        s4.procs == s.procs.take(i) + s.procs.skip(i + 1),
        wait.arg0 == 0 ==> out2 == Outcome::Return(s.current_pid),
        wait.arg0 != 0 && out2 is Return ==> out2 == Outcome::Return(s.current_pid) && exists|code: i32|
            (exit.arg0 - code) % 0x1_0000_0000 == 0 && #[trigger] user::store_i32(
                s3.mem,
                s3.cr3,
                wait.arg0 as int,
                code,
            ) == Some(s4.mem),
{
    law_exit_leaves_its_code(s, exit, i, s2, out);
    law_wait_collects_the_ended_child(s3, wait, s4, out2);
    assert forall|j: int| 0 <= j < i implies (#[trigger] s3.procs[j]).parent_pid != s3.current_pid
        || s3.procs[j].state is Running by {
        assert(s2.procs[j] == s.procs[j]);
    }
    assert(s3.procs[i].parent_pid == s3.current_pid && s3.procs[i].state is Zombie);
    assert(s3.procs.take(i) + s3.procs.skip(i + 1) =~= s.procs.take(i) + s.procs.skip(i + 1)) by {
        assert(s3.procs.take(i) =~= s.procs.take(i));
        assert(s3.procs.skip(i + 1) =~= s.procs.skip(i + 1));
    }
    let code = s3.procs[i].state->Zombie_0;
    process::law_first_zombie_is_found(s3.procs, s3.current_pid);
    assert(process::zombie_child(s3.procs, s3.current_pid) == Some(i));
    if wait.arg0 != 0 && out2 is Return {
        assert(process::parent_of_any(s3.procs, s3.current_pid));
        assert(user::store_i32(s3.mem, s3.cr3, wait.arg0 as int, code) == Some(s4.mem));
    }
}

/// Where two stacks do not fit into the heap, one is taken if at least that fits,
/// and the heap is never overrun.
pub proof fn law_shortage_takes_one_stack_at_most(s: KernelState)
    requires
        s.heap + s.blocks <= HEAP_SIZE,
        !stacks_fit(s),
    ensures
        s.heap + s.blocks + 16384 <= HEAP_SIZE ==> heap_after_shortage(s) == s.heap + 16384,
        s.heap + s.blocks + 16384 > HEAP_SIZE ==> heap_after_shortage(s) == s.heap,
        heap_after_shortage(s) + s.blocks <= HEAP_SIZE,
{
}

} // verus!
