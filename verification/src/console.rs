//! The debug console: what each command does to the kernel, prints, and leaves
//! to be done with the hardware.
use vstd::prelude::*;
use crate::bytes;
use crate::caps::{self, Capabilities};
use crate::diskview::{DiskJob, JobInfo};
use crate::elf::{self, Trouble};
use crate::fmt;
use crate::heap;
use crate::ping;
use crate::pmm;
use crate::process::{self, Pcb, ProcessState};
use crate::preempt;
use crate::ring3::{self, IretFrame};
use crate::scheduler;
use crate::syscall::{self, Kernel, KernelState};
use crate::task;
use crate::text;
use crate::vfs;

verus! {

pub const BANNER: &'static str =
    "\r\n--- consola de depuracion Forge OS ---\r\nescribe 'help' para ver los comandos\r\n\r\n";

pub const PROMPT: &'static str = "forge> ";

pub const HELP: &'static str =
    "comandos: help, meminfo, caps, bp, panic, fb, pci, ahci, net, ping, disktest, partinfo, ext2ls, ext2cat, ls, cat, write, ring3test, synccalltest, synccalldeny, forktest, waittest, exec, ember, preempttest, segvtest, killtest, ps\r\n";

pub const SYNC_ALLOW: &'static str =
    "pledge: CAP_STDIO concedido — SYS_PING deberia PERMITIRSE\r\n";

pub const SYNC_DENY: &'static str = "pledge: sin CAP_STDIO — SYS_PING deberia DENEGARSE\r\n";

pub const SYNC_LOAD: &'static str =
    "cargando ELF que ejecuta syscall(SYS_PING) desde ring 3...\r\nAVISO: sigue siendo viaje de ida al final (jmp $ tras la syscall)\r\n";

pub const RING3_LOAD: &'static str =
    "cargando ELF de prueba y saltando a ring 3...\r\nAVISO: viaje solo de ida — sin preemption real todavia,\r\nesta consola no respondera despues de esto en esta sesion.\r\n";

pub const FORK_LOAD: &'static str =
    "cargando ELF de fork y arrancandolo como proceso real...\r\n";

pub const FORK_STARTED: &'static str =
    " arrancado — cediendo turno para que padre e hijo corran...\r\n";

pub const FORK_BACK: &'static str =
    "de vuelta en la consola — revisa 'ps' para ver el resultado.\r\n";

pub const WAIT_LOAD: &'static str =
    "cargando ELF de fork+wait y arrancandolo como proceso real...\r\n";

pub const STARTED: &'static str = " arrancado — cediendo turno...\r\n";

pub const WAIT_BACK: &'static str =
    "de vuelta en la consola — 'ps' no deberia listar ya al hijo (memoria liberada).\r\n";

pub const EXEC_LOAD: &'static str =
    "guardando TEST_ELF_PING_EXIT como 'pingtest' en el VFS...\r\narrancando proceso que se reemplaza a si mismo via execve(\"pingtest\")...\r\n";

pub const EXEC_BACK: &'static str = "de vuelta en la consola.\r\n";

pub const EMBER_LOAD: &'static str =
    "registrando servicios en el VFS: ember-svc0, ember-svc1...\r\narrancando Ember (PID 1) como proceso real...\r\n";

pub const EMBER_STARTED: &'static str = " (Ember) arrancado — cediendo turno...\r\n";

pub const EMBER_BACK: &'static str =
    "de vuelta en la consola — revisa 'ps': los dos servicios ya no deberían aparecer (Ember los reapeó con wait(), memoria liberada de verdad); Ember mismo sí queda como zombie(code=0) — nadie lo espera, se lanzó directo desde la consola (PPID 0).\r\n";

pub const SEGV_LOAD: &'static str =
    "cargando ELF que toca memoria sin mapear y arrancandolo como proceso real...\r\n";

pub const SEGV_BACK: &'static str =
    "de vuelta en la consola — 'ps' deberia mostrarlo como zombie(code=139), muerto por SIGSEGV.\r\n";

pub const KILL_LOAD: &'static str =
    "cargando ELF que mata a su hijo con SIGKILL y arrancandolo como proceso real...\r\n";

pub const KILL_BACK: &'static str =
    "de vuelta en la consola — 'ps' deberia mostrar al hijo como zombie(code=137).\r\n";

pub const PREEMPT_LOAD: &'static str =
    "arrancando dos tareas que nunca ceden el turno, con preemption por timer...\r\n";

pub const PREEMPT_OK: &'static str = "OK — el timer les quita el turno a las dos\r\n";

pub const PREEMPT_FAILED: &'static str = "FALLO: alguna de las dos no llego a correr\r\n";

pub const EXT2LS_USAGE: &'static str = "uso: ext2ls <ruta>\r\n";

pub const EXT2CAT_USAGE: &'static str = "uso: ext2cat <ruta>\r\n";

pub const PS_HEADER: &'static str = "PID  PPID  ESTADO\r\n";

pub const CAT_USAGE: &'static str = "uso: cat <nombre>\r\n";

pub const WRITE_USAGE: &'static str = "uso: write <nombre> <texto...>\r\n";

pub const DISK_TEST: &'static str =
    "probando escritura+relectura en LBA 2048 (no destructivo)...\r\n";

pub const DISK_OK: &'static str =
    "OK — escritura y relectura coinciden, el disco responde bien\r\n";

pub const NO_DISK: &'static str = "no se encontró ningún disco SATA listo\r\n";

pub const REDRAWN: &'static str = "patrón + banner redibujados\r\n";

pub const NO_SCREEN: &'static str = "sin framebuffer disponible\r\n";

pub const BOOT_BANNER: &'static str = "FORGE OS BOOT OK";

pub const PANIC: &'static str = "panic solicitado desde la consola de depuración";

/// Sector that the disk test uses.
pub const DISK_TEST_LBA: u64 = 2048;

/// Ticks of the timer that the preemption test lasts.
pub const PREEMPT_TICKS: u64 = 20;

/// Where the stacks of started programs are mapped: outside of what address
/// spaces share.
pub const RING3_STACK_VIRT: u64 = 0xB0_0000_0000;

pub const SYNC_STACK_VIRT: u64 = 0x80_0000_0000;

pub const LAUNCH_STACK_VIRT: u64 = 0x90_0000_0000;

/// The programs that the console can start.
pub struct Programs {
    /// Forks; parent and child ping and exit.
    pub fork: Vec<u8>,
    /// Forks and waits for the child.
    pub fork_wait: Vec<u8>,
    /// Pings and exits.
    pub ping_exit: Vec<u8>,
    /// Replaces itself with the file `pingtest`.
    pub execve: Vec<u8>,
    /// Starts the services in order, each after the one before ended.
    pub ember: Vec<u8>,
    /// Touches memory that is not mapped.
    pub segv: Vec<u8>,
    /// Forks and kills the child.
    pub kill: Vec<u8>,
}

/// What a command may depend on besides the kernel.
#[derive(Clone, Copy)]
pub struct Surroundings {
    /// Whether a disk is ready.
    pub disk: bool,
    /// Whether there is a framebuffer.
    pub screen: bool,
}

/// What is left to be done after a command.
pub enum Next {
    /// Nothing.
    Prompt,
    /// Load this root and go to ring 3 with this frame, for good.
    Enter { root: u64, frame: IretFrame },
    /// Store the address of the start of the new task at `entry_slot`, pass the
    /// turn on this many times, then print the report.
    Turns { entry_slot: u64, turns: u32, report: &'static str },
    /// List the PCI devices.
    ScanPci,
    /// List the SATA devices.
    ProbeDisks,
    /// Start the network card and show its address.
    ProbeNet,
    /// Start the network card and ping the gateway with a
    /// [`ping::PingSession`]; without a card, print [`ping::NO_CARD`].
    Ping,
    /// Write to this sector and read it again; [`disk_test_report`] tells the
    /// result.
    TestDisk(u64),
    /// Carry a [`DiskJob`] out on the first disk: supply it with sectors until it
    /// gives what to print.
    Disk(DiskJob),
    /// Store the addresses of the two tasks of [`preempt::spawn_spin_tasks`] at
    /// the slots, switch preemption on for this many ticks of the timer and off
    /// again, then go on with [`end_preempt_test`].
    Preempt { slots: (u64, u64), first: u64, ticks: u64 },
    /// Draw the test pattern, print what is logged of it, draw [`BOOT_BANNER`],
    /// then print this.
    DrawBanner(&'static str),
    Breakpoint,
    Panic(&'static str),
    /// The kernel cannot go on.
    Halt,
}

/// The answer to a command.
pub struct Reply {
    pub out: Vec<u8>,
    pub next: Next,
}

#[derive(Clone, Copy, PartialEq, Eq, Debug, Structural)]
pub enum Command {
    Help,
    SyncCallTest,
    SyncCallDeny,
    Ring3Test,
    ForkTest,
    WaitTest,
    Exec,
    Ember,
    PreemptTest,
    SegvTest,
    KillTest,
    Ps,
    Ls,
    Cat,
    Write,
    DiskTest,
    PartInfo,
    Ext2Ls,
    Ext2Cat,
    Pci,
    Ahci,
    Net,
    Ping,
    Fb,
    Meminfo,
    Caps,
    Bp,
    Panic,
    Unknown,
}

/// The command of that name.
pub open spec fn command_of(word: Seq<char>) -> Command {
    if word == "help"@ {
        Command::Help
    } else if word == "synccalltest"@ {
        Command::SyncCallTest
    } else if word == "synccalldeny"@ {
        Command::SyncCallDeny
    } else if word == "ring3test"@ {
        Command::Ring3Test
    } else if word == "forktest"@ {
        Command::ForkTest
    } else if word == "waittest"@ {
        Command::WaitTest
    } else if word == "exec"@ {
        Command::Exec
    } else if word == "ember"@ {
        Command::Ember
    } else if word == "ps"@ {
        Command::Ps
    } else if word == "ls"@ {
        Command::Ls
    } else if word == "cat"@ {
        Command::Cat
    } else if word == "write"@ {
        Command::Write
    } else if word == "disktest"@ {
        Command::DiskTest
    } else if word == "pci"@ {
        Command::Pci
    } else if word == "ahci"@ {
        Command::Ahci
    } else if word == "net"@ {
        Command::Net
    } else if word == "ping"@ {
        Command::Ping
    } else if word == "fb"@ {
        Command::Fb
    } else if word == "meminfo"@ {
        Command::Meminfo
    } else if word == "caps"@ {
        Command::Caps
    } else if word == "bp"@ {
        Command::Bp
    } else if word == "preempttest"@ {
        Command::PreemptTest
    } else if word == "segvtest"@ {
        Command::SegvTest
    } else if word == "killtest"@ {
        Command::KillTest
    } else if word == "partinfo"@ {
        Command::PartInfo
    } else if word == "ext2ls"@ {
        Command::Ext2Ls
    } else if word == "ext2cat"@ {
        Command::Ext2Cat
    } else if word == "panic"@ {
        Command::Panic
    } else {
        Command::Unknown
    }
}

/// The command of that name.
pub fn find_command(word: &str) -> (r: Command)
    ensures
        r == command_of(word@),
{
    if text::same_text(word, "help") {
        Command::Help
    } else if text::same_text(word, "synccalltest") {
        Command::SyncCallTest
    } else if text::same_text(word, "synccalldeny") {
        Command::SyncCallDeny
    } else if text::same_text(word, "ring3test") {
        Command::Ring3Test
    } else if text::same_text(word, "forktest") {
        Command::ForkTest
    } else if text::same_text(word, "waittest") {
        Command::WaitTest
    } else if text::same_text(word, "exec") {
        Command::Exec
    } else if text::same_text(word, "ember") {
        Command::Ember
    } else if text::same_text(word, "ps") {
        Command::Ps
    } else if text::same_text(word, "ls") {
        Command::Ls
    } else if text::same_text(word, "cat") {
        Command::Cat
    } else if text::same_text(word, "write") {
        Command::Write
    } else if text::same_text(word, "disktest") {
        Command::DiskTest
    } else if text::same_text(word, "pci") {
        Command::Pci
    } else if text::same_text(word, "ahci") {
        Command::Ahci
    } else if text::same_text(word, "net") {
        Command::Net
    } else if text::same_text(word, "ping") {
        Command::Ping
    } else if text::same_text(word, "fb") {
        Command::Fb
    } else if text::same_text(word, "meminfo") {
        Command::Meminfo
    } else if text::same_text(word, "caps") {
        Command::Caps
    } else if text::same_text(word, "bp") {
        Command::Bp
    } else if text::same_text(word, "preempttest") {
        Command::PreemptTest
    } else if text::same_text(word, "segvtest") {
        Command::SegvTest
    } else if text::same_text(word, "killtest") {
        Command::KillTest
    } else if text::same_text(word, "partinfo") {
        Command::PartInfo
    } else if text::same_text(word, "ext2ls") {
        Command::Ext2Ls
    } else if text::same_text(word, "ext2cat") {
        Command::Ext2Cat
    } else if text::same_text(word, "panic") {
        Command::Panic
    } else {
        Command::Unknown
    }
}

// --- starting programs -------------------------------------------------------------

/// What is printed for trouble with a program.
pub open spec fn trouble_text(t: Trouble) -> Seq<u8> {
    match t {
        Trouble::Load(e) => fmt::text("carga del ELF falló: "@) + fmt::text(e@) + fmt::text("\r\n"@),
        Trouble::NoStack => fmt::text("sin memoria para la pila de usuario\r\n"@),
        Trouble::Stack(e) => fmt::text("fallo mapeando la pila de usuario: "@) + fmt::text(e@)
            + fmt::text("\r\n"@),
    }
}

fn push_trouble(out: &mut Vec<u8>, t: Trouble)
    ensures
        final(out)@ == old(out)@ + trouble_text(t),
{
    match t {
        Trouble::Load(e) => {
            fmt::push_text(out, "carga del ELF falló: ");
            fmt::push_text(out, e);
            fmt::push_text(out, "\r\n");
        },
        Trouble::NoStack => {
            fmt::push_text(out, "sin memoria para la pila de usuario\r\n");
        },
        Trouble::Stack(e) => {
            fmt::push_text(out, "fallo mapeando la pila de usuario: ");
            fmt::push_text(out, e);
            fmt::push_text(out, "\r\n");
        },
    }
    assert(out@ =~= old(out)@ + trouble_text(t));
}

/// What entering an image does that is not a process: it is loaded with a page
/// of stack at `stack_virt`, and ring 3 goes on in it. `said` was printed before.
pub open spec fn entered(
    s: KernelState,
    said: Seq<u8>,
    image: Seq<u8>,
    stack_virt: u64,
    s2: KernelState,
    out: Seq<u8>,
    next: Next,
) -> bool {
    let (m2, p2, outcome) = elf::prepared(s.mem, s.pool, s.cr3, image, stack_virt);
    let root = pmm::lowest_frame(s.pool);
    match outcome {
        Err(t) => {
            &&& s2 == KernelState { mem: m2, pool: p2, ..s }
            &&& out == said + trouble_text(t)
            &&& next == Next::Prompt
        },
        Ok(_) => {
            &&& s2 == KernelState { mem: m2, pool: p2, cr3: root, ..s }
            &&& out == said
            &&& next == Next::Enter {
                root,
                frame: ring3::user_frame(
                    bytes::le64(image, 24) as u64,
                    (stack_virt + 4096) as u64,
                    None,
                ),
            }
        },
    }
}

fn enter_image(k: &mut Kernel, said: Vec<u8>, image: &[u8], stack_virt: u64) -> (r: Reply)
    requires
        old(k).wf(),
        elf::fillable(old(k)@.mem, old(k)@.pool, old(k)@.cr3),
        stack_virt % 4096 == 0,
        stack_virt + 4096 <= u64::MAX,
    ensures
        final(k).wf(),
        entered(old(k)@, said@, image@, stack_virt, final(k)@, r.out@, r.next),
{
    let mut out = said;
    match elf::load_with_stack(&mut k.mem, &mut k.pmm, k.cr3, image, stack_virt) {
        Ok(loaded) => {
            k.cr3 = loaded.page_table;
            let frame = ring3::enter_ring3(loaded.entry_point, stack_virt + 4096);
            Reply { out, next: Next::Enter { root: loaded.page_table, frame } }
        },
        Err(t) => {
            push_trouble(&mut out, t);
            Reply { out, next: Next::Prompt }
        },
    }
}

/// What starting an image as a process does: it is loaded with a page of stack,
/// registered without a parent and given a task. `said` was printed before,
/// `tail` comes after its PID. Without heap for the stacks of the task the
/// kernel cannot go on.
pub open spec fn launched(
    s: KernelState,
    said: Seq<u8>,
    image: Seq<u8>,
    tail: &'static str,
    turns: u32,
    report: &'static str,
    s2: KernelState,
    out: Seq<u8>,
    next: Next,
) -> bool {
    let (m2, p2, outcome) = elf::prepared(s.mem, s.pool, s.cr3, image, LAUNCH_STACK_VIRT);
    let root = pmm::lowest_frame(s.pool);
    let s1 = KernelState { mem: m2, pool: p2, ..s };
    let started = syscall::launched(
        s1,
        bytes::le64(image, 24) as u64,
        (LAUNCH_STACK_VIRT + 4096) as u64,
        root,
        0,
    );
    match outcome {
        Err(t) => {
            &&& s2 == s1
            &&& out == said + trouble_text(t)
            &&& next == Next::Prompt
        },
        Ok(_) => if !syscall::stacks_fit(s) {
            &&& s2 == KernelState {
                tasks: s.tasks,
                heap: syscall::heap_after_shortage(s),
                ..started
            }
            &&& out == said + syscall::stack_shortage()
            &&& next == Next::Halt
        } else {
            &&& s2 == started
            &&& out == said + fmt::text("PID "@) + fmt::decimal(s.next_pid as nat) + fmt::text(
                tail@,
            )
            &&& next == Next::Turns {
                entry_slot: syscall::process_task(s1, root, s.next_pid).context.rsp,
                turns,
                report,
            }
        },
    }
}

fn launch_elf(
    k: &mut Kernel,
    said: Vec<u8>,
    image: &[u8],
    tail: &'static str,
    turns: u32,
    report: &'static str,
) -> (r: Reply)
    requires
        old(k).wf(),
        elf::fillable(old(k)@.mem, old(k)@.pool, old(k)@.cr3),
    ensures
        final(k).wf(),
        launched(old(k)@, said@, image@, tail, turns, report, final(k)@, r.out@, r.next),
{
    let mut out = said;
    let loaded = match elf::load_with_stack(
        &mut k.mem,
        &mut k.pmm,
        k.cr3,
        image,
        LAUNCH_STACK_VIRT,
    ) {
        Ok(l) => l,
        Err(t) => {
            push_trouble(&mut out, t);
            return Reply { out, next: Next::Prompt };
        },
    };
    match syscall::spawn_process(
        k,
        loaded.entry_point,
        LAUNCH_STACK_VIRT + 4096,
        loaded.page_table,
        0,
    ) {
        Some((pid, entry_slot)) => {
            fmt::push_text(&mut out, "PID ");
            fmt::push_decimal(&mut out, pid);
            fmt::push_text(&mut out, tail);
            Reply { out, next: Next::Turns { entry_slot, turns, report } }
        },
        None => {
            heap::alloc_error(&mut out, task::STACK_SIZE as u64, 1);
            Reply { out, next: Next::Halt }
        },
    }
}

// --- preemption --------------------------------------------------------------------

/// What starting the preemption test does: two kernel threads get a stack each.
/// Without heap for these the kernel cannot go on.
pub open spec fn spinning(s: KernelState, s2: KernelState, out: Seq<u8>, next: Next) -> bool {
    let first = s.tasks.len() as u64;
    let a = scheduler::kernel_thread(first, (s.heap_start + s.heap) as u64);
    let b = scheduler::kernel_thread(
        (first + 1) as u64,
        (s.heap_start + s.heap + task::STACK_SIZE) as u64,
    );
    &&& if !syscall::stacks_fit(s) {
        &&& out == fmt::text(PREEMPT_LOAD@) + syscall::stack_shortage()
        &&& s2 == KernelState { heap: syscall::heap_after_shortage(s), ..s }
        &&& next == Next::Halt
    } else {
        &&& out == fmt::text(PREEMPT_LOAD@)
        &&& s2 == KernelState {
            tasks: s.tasks.push(a).push(b),
            heap: (s.heap + syscall::stacks_size()) as u64,
            ..s
        }
        &&& next == Next::Preempt {
            slots: (a.context.rsp, b.context.rsp),
            first,
            ticks: PREEMPT_TICKS,
        }
    }
}

fn start_spinning(k: &mut Kernel) -> (r: Reply)
    requires
        old(k).wf(),
    ensures
        final(k).wf(),
        spinning(old(k)@, final(k)@, r.out@, r.next),
{
    let mut out = say(PREEMPT_LOAD);
    let stack_a = match syscall::take_stack(k) {
        Some(a) => a,
        None => {
            heap::alloc_error(&mut out, task::STACK_SIZE as u64, 1);
            return Reply { out, next: Next::Halt };
        },
    };
    let stack_b = match syscall::take_stack(k) {
        Some(a) => a,
        None => {
            heap::alloc_error(&mut out, task::STACK_SIZE as u64, 1);
            return Reply { out, next: Next::Halt };
        },
    };
    let at = k.sched.tasks.len();
    let (first, _) = preempt::spawn_spin_tasks(&mut k.sched, stack_a, stack_b);
    assert(k.sched.tasks.len() == k.sched.tasks@.len());
    let slots = (k.sched.tasks[at].context.rsp, k.sched.tasks[at + 1].context.rsp);
    Reply { out, next: Next::Preempt { slots, first, ticks: PREEMPT_TICKS } }
}

/// What is printed when the preemption test is over: how often each of the two
/// tasks went round. Both did if the timer took the turn from each.
pub open spec fn spun_text(counts: (u64, u64)) -> Seq<u8> {
    fmt::text("spin_a: "@) + fmt::decimal(counts.0 as nat) + fmt::text(" vueltas, spin_b: "@)
        + fmt::decimal(counts.1 as nat) + fmt::text(" vueltas\r\n"@) + fmt::text(
        if counts.0 > 0 && counts.1 > 0 {
            PREEMPT_OK@
        } else {
            PREEMPT_FAILED@
        },
    )
}

/// Ends the preemption test: its two tasks, from `first` on, never get a turn
/// again. Gives what to print.
pub fn end_preempt_test(k: &mut Kernel, first: usize, counts: (u64, u64)) -> (r: Vec<u8>)
    requires
        old(k).wf(),
        first + 1 < old(k)@.tasks.len(),
    ensures
        final(k).wf(),
        final(k)@ == (KernelState {
            tasks: old(k)@.tasks.update(
                first as int,
                scheduler::finished(old(k)@.tasks[first as int]),
            ).update(first + 1, scheduler::finished(old(k)@.tasks[first + 1])),
            ..old(k)@
        }),
        r@ == spun_text(counts),
{
    assert(k.sched.tasks.len() == k.sched.tasks@.len());
    scheduler::mark_finished(&mut k.sched, first);
    scheduler::mark_finished(&mut k.sched, first + 1);
    let mut out: Vec<u8> = Vec::new();
    fmt::push_text(&mut out, "spin_a: ");
    fmt::push_decimal(&mut out, counts.0);
    fmt::push_text(&mut out, " vueltas, spin_b: ");
    fmt::push_decimal(&mut out, counts.1);
    fmt::push_text(&mut out, " vueltas\r\n");
    if counts.0 > 0 && counts.1 > 0 {
        fmt::push_text(&mut out, PREEMPT_OK);
    } else {
        fmt::push_text(&mut out, PREEMPT_FAILED);
    }
    assert(out@ =~= spun_text(counts));
    out
}

// --- listings ----------------------------------------------------------------------

/// A line of the process list.
pub open spec fn process_line(p: Pcb) -> Seq<u8> {
    let state = match p.state {
        ProcessState::Running => fmt::text("running"@),
        ProcessState::Zombie(code) => fmt::text("zombie(code="@) + fmt::signed(code as int)
            + fmt::text(")"@),
    };
    fmt::left_aligned(fmt::decimal(p.pid as nat), 4) + fmt::text(" "@) + fmt::left_aligned(
        fmt::decimal(p.parent_pid as nat),
        5,
    ) + fmt::text(" "@) + state + fmt::text("\r\n"@)
}

/// The lines of the first `n` processes.
pub open spec fn process_lines(procs: Seq<Pcb>, n: nat) -> Seq<u8>
    decreases n,
{
    if n == 0 {
        Seq::empty()
    } else {
        process_lines(procs, (n - 1) as nat) + process_line(procs[n - 1])
    }
}

fn push_process(out: &mut Vec<u8>, p: Pcb)
    ensures
        final(out)@ == old(out)@ + process_line(p),
{
    fmt::push_left_aligned(out, p.pid, 4);
    fmt::push_text(out, " ");
    fmt::push_left_aligned(out, p.parent_pid, 5);
    fmt::push_text(out, " ");
    match p.state {
        ProcessState::Running => {
            fmt::push_text(out, "running");
        },
        ProcessState::Zombie(code) => {
            fmt::push_text(out, "zombie(code=");
            fmt::push_signed(out, code);
            fmt::push_text(out, ")");
        },
    }
    fmt::push_text(out, "\r\n");
    assert(out@ =~= old(out)@ + process_line(p));
}

fn list_processes(k: &Kernel) -> (r: Vec<u8>)
    ensures
        r@ == fmt::text(PS_HEADER@) + process_lines(k@.procs, k@.procs.len()),
{
    let mut out: Vec<u8> = Vec::new();
    fmt::push_text(&mut out, PS_HEADER);
    let procs = process::list(&k.procs);
    let mut i: usize = 0;
    assert(out@ =~= fmt::text(PS_HEADER@) + process_lines(procs@, 0));
    while i < procs.len()
        invariant
            i <= procs@.len(),
            out@ == fmt::text(PS_HEADER@) + process_lines(procs@, i as nat),
        decreases procs@.len() - i,
    {
        let ghost before = out@;
        push_process(&mut out, procs[i]);
        i += 1;
        assert(out@ =~= fmt::text(PS_HEADER@) + process_lines(procs@, i as nat));
    }
    out
}

/// The first `n` names, one to a line.
pub open spec fn name_lines(names: Seq<Seq<char>>, n: nat) -> Seq<u8>
    decreases n,
{
    if n == 0 {
        Seq::empty()
    } else {
        name_lines(names, (n - 1) as nat) + fmt::text(names[n - 1]) + fmt::text("\r\n"@)
    }
}

/// Whether these are the names of all files, in order, one to a line.
pub open spec fn listed(files: Map<Seq<char>, Seq<u8>>, out: Seq<u8>) -> bool {
    exists|names: Seq<Seq<char>>| #[trigger]
        vfs::is_listing(files, names) && out == name_lines(names, names.len())
}

fn list_files(k: &Kernel) -> (r: Vec<u8>)
    requires
        k.wf(),
    ensures
        listed(k@.files, r@),
{
    let mut out: Vec<u8> = Vec::new();
    let names = vfs::list(&k.fs);
    let ghost texts = vfs::names_of(names@);
    let mut i: usize = 0;
    assert(out@ =~= name_lines(texts, 0));
    while i < names.len()
        invariant
            i <= names@.len(),
            texts == vfs::names_of(names@),
            out@ == name_lines(texts, i as nat),
        decreases names@.len() - i,
    {
        fmt::push_text(&mut out, names[i].as_str());
        fmt::push_text(&mut out, "\r\n");
        i += 1;
        assert(out@ =~= name_lines(texts, i as nat));
    }
    assert(vfs::is_listing(k@.files, texts));
    out
}

// --- files -------------------------------------------------------------------------

/// The answer to `cat`.
pub open spec fn cat_text(files: Map<Seq<char>, Seq<u8>>, words: Seq<Seq<char>>) -> Seq<u8> {
    if words.len() < 2 {
        fmt::text(CAT_USAGE@)
    } else if files.contains_key(words[1]) {
        files[words[1]] + fmt::text("\r\n"@)
    } else {
        fmt::text("no existe: "@) + fmt::text(words[1]) + fmt::text("\r\n"@)
    }
}

fn cat(k: &Kernel, words: &Vec<&str>) -> (r: Vec<u8>)
    requires
        k.wf(),
    ensures
        r@ == cat_text(k@.files, text::texts(words@)),
{
    let mut out: Vec<u8> = Vec::new();
    if words.len() < 2 {
        fmt::push_text(&mut out, CAT_USAGE);
    } else {
        let name = words[1];
        assert(text::texts(words@)[1] == name@);
        match vfs::read(&k.fs, name) {
            Some(data) => {
                bytes::push_all(&mut out, data.as_slice());
                fmt::push_text(&mut out, "\r\n");
            },
            None => {
                fmt::push_text(&mut out, "no existe: ");
                fmt::push_text(&mut out, name);
                fmt::push_text(&mut out, "\r\n");
            },
        }
    }
    assert(out@ =~= cat_text(k@.files, text::texts(words@)));
    out
}

/// The bytes of the words from the third up to the `n`-th, with a blank between
/// two of them.
pub open spec fn joined(words: Seq<Seq<char>>, n: nat) -> Seq<u8>
    decreases n,
{
    if n <= 2 {
        Seq::empty()
    } else if n == 3 {
        fmt::text(words[2])
    } else {
        joined(words, (n - 1) as nat) + seq![0x20u8] + fmt::text(words[n - 1])
    }
}

fn join_words(words: &Vec<&str>) -> (r: Vec<u8>)
    ensures
        r@ == joined(text::texts(words@), words@.len()),
{
    let mut out: Vec<u8> = Vec::new();
    let ghost all = text::texts(words@);
    let mut i: usize = 2;
    if words.len() <= 2 {
        assert(out@ =~= Seq::<u8>::empty());
        return out;
    }
    while i < words.len()
        invariant
            2 <= i <= words@.len(),
            all == text::texts(words@),
            out@ == joined(all, i as nat),
        decreases words@.len() - i,
    {
        assert(all[i as int] == words@[i as int]@);
        if i > 2 {
            out.push(0x20);
        }
        fmt::push_text(&mut out, words[i]);
        i += 1;
        assert(out@ =~= joined(all, i as nat));
    }
    out
}

/// The answer to `write`.
pub open spec fn write_text(words: Seq<Seq<char>>) -> Seq<u8> {
    if words.len() < 3 {
        fmt::text(WRITE_USAGE@)
    } else {
        fmt::text("escrito: "@) + fmt::text(words[1]) + fmt::text(" ("@) + fmt::decimal(
            joined(words, words.len()).len(),
        ) + fmt::text(" bytes)\r\n"@)
    }
}

/// The state after `write`: the file holds the words that follow its name.
pub open spec fn written(s: KernelState, words: Seq<Seq<char>>) -> KernelState {
    if words.len() < 3 {
        s
    } else {
        KernelState { files: s.files.insert(words[1], joined(words, words.len())), ..s }
    }
}

fn write_file(k: &mut Kernel, words: &Vec<&str>) -> (r: Vec<u8>)
    requires
        old(k).wf(),
    ensures
        final(k).wf(),
        r@ == write_text(text::texts(words@)),
        final(k)@ == written(old(k)@, text::texts(words@)),
{
    let mut out: Vec<u8> = Vec::new();
    if words.len() < 3 {
        fmt::push_text(&mut out, WRITE_USAGE);
    } else {
        let name = words[1];
        assert(text::texts(words@)[1] == name@);
        let content = join_words(words);
        vfs::write(&mut k.fs, name, content.as_slice());
        fmt::push_text(&mut out, "escrito: ");
        fmt::push_text(&mut out, name);
        fmt::push_text(&mut out, " (");
        fmt::push_decimal(&mut out, content.len() as u64);
        fmt::push_text(&mut out, " bytes)\r\n");
    }
    assert(out@ =~= write_text(text::texts(words@)));
    out
}

// --- figures -----------------------------------------------------------------------

/// The answer to `meminfo`. All that was taken from the heap counts: the stacks
/// of tasks and everything else.
pub open spec fn meminfo_text(s: KernelState) -> Seq<u8> {
    fmt::text("frames libres: "@) + fmt::decimal(s.pool.len()) + fmt::text(" (~"@) + fmt::decimal(
        (4 * s.pool.len()) as nat,
    ) + fmt::text(" KiB)\r\nheap usado: "@) + fmt::decimal(
        (s.heap + s.blocks) as nat,
    ) + fmt::text(" bytes\r\n"@)
}

fn meminfo(k: &Kernel) -> (r: Vec<u8>)
    requires
        k.wf(),
    ensures
        r@ == meminfo_text(k@),
{
    let mut out: Vec<u8> = Vec::new();
    let free = pmm::free_frame_count(&k.pmm) as u64;
    fmt::push_text(&mut out, "frames libres: ");
    fmt::push_decimal(&mut out, free);
    fmt::push_text(&mut out, " (~");
    fmt::push_decimal(&mut out, free * 4);
    fmt::push_text(&mut out, " KiB)\r\nheap usado: ");
    fmt::push_decimal(&mut out, k.heap.used_bytes() + k.blocks);
    fmt::push_text(&mut out, " bytes\r\n");
    assert(out@ =~= meminfo_text(k@));
    out
}

/// The answer to `caps`: what was pledged is allowed, other things are not.
pub open spec fn caps_text() -> Seq<u8> {
    fmt::text("pledge STDIO -> enforce STDIO permitido = "@) + fmt::truth(true) + fmt::text(
        "\r\nenforce NET (no pledgeado) permitido = "@,
    ) + fmt::truth(false) + fmt::text("\r\n"@)
}

fn run_caps_demo() -> (r: Vec<u8>)
    ensures
        r@ == caps_text(),
{
    let mut out: Vec<u8> = Vec::new();
    let mut c = Capabilities::unrestricted();
    let _ = c.pledge(caps::CAP_STDIO);
    assert(1u32 & 1u32 == 1u32 && 0x10u32 & 1u32 != 0x10u32) by (bit_vector);
    fmt::push_text(&mut out, "pledge STDIO -> enforce STDIO permitido = ");
    fmt::push_truth(&mut out, c.enforce(caps::CAP_STDIO).is_ok());
    fmt::push_text(&mut out, "\r\nenforce NET (no pledgeado) permitido = ");
    fmt::push_truth(&mut out, c.enforce(caps::CAP_NET).is_ok());
    fmt::push_text(&mut out, "\r\n");
    assert(out@ =~= caps_text());
    out
}

/// What is printed when the disk test is over.
pub fn disk_test_report(result: Result<(), &'static str>) -> (r: Vec<u8>)
    ensures
        r@ == match result {
            Ok(_) => fmt::text(DISK_OK@),
            Err(e) => fmt::text("FALLO: "@) + fmt::text(e@) + fmt::text("\r\n"@),
        },
{
    let mut out: Vec<u8> = Vec::new();
    match result {
        Ok(_) => {
            fmt::push_text(&mut out, DISK_OK);
            assert(out@ =~= fmt::text(DISK_OK@));
        },
        Err(e) => {
            fmt::push_text(&mut out, "FALLO: ");
            fmt::push_text(&mut out, e);
            fmt::push_text(&mut out, "\r\n");
            assert(out@ =~= fmt::text("FALLO: "@) + fmt::text(e@) + fmt::text("\r\n"@));
        },
    }
    out
}

// --- the dispatcher ----------------------------------------------------------------

/// What a command that shows something of a disk does: without a path it tells
/// its use, without a disk there is nothing to show.
pub open spec fn disk_job(
    disk: bool,
    usage: Option<&'static str>,
    job: JobInfo,
    out: Seq<u8>,
    next: Next,
) -> bool {
    match usage {
        Some(u) => out == fmt::text(u@) && next == Next::Prompt,
        None => if disk {
            out == Seq::<u8>::empty() && (next matches Next::Disk(j) && j@ == job)
        } else {
            out == fmt::text(NO_DISK@) && next == Next::Prompt
        },
    }
}

/// The use of a command that needs a path, if the line has none.
pub open spec fn usage_of(words: Seq<Seq<char>>, usage: &'static str) -> Option<&'static str> {
    if words.len() < 2 {
        Some(usage)
    } else {
        None
    }
}

/// Whether a command loads a program.
pub open spec fn loads(words: Seq<Seq<char>>) -> bool {
    words.len() > 0 && match command_of(words[0]) {
        Command::SyncCallTest => true,
        Command::SyncCallDeny => true,
        Command::Ring3Test => true,
        Command::ForkTest => true,
        Command::WaitTest => true,
        Command::Exec => true,
        Command::Ember => true,
        Command::SegvTest => true,
        Command::KillTest => true,
        _ => false,
    }
}

/// Whether a line of the console loads a program.
pub fn loads_program(line: &str) -> (r: bool)
    ensures
        r == loads(text::words(line@, 0)),
{
    let words = text::split_whitespace(line);
    let ghost said = text::texts(words@);
    if words.len() == 0 {
        return false;
    }
    let cmd = words[0];
    assert(said[0] == cmd@);
    match find_command(cmd) {
        Command::SyncCallTest | Command::SyncCallDeny | Command::Ring3Test => true,
        Command::ForkTest | Command::WaitTest | Command::Exec => true,
        Command::Ember | Command::SegvTest | Command::KillTest => true,
        _ => false,
    }
}

/// What a command line does.
pub open spec fn answered(
    s: KernelState,
    programs: Programs,
    env: Surroundings,
    words: Seq<Seq<char>>,
    s2: KernelState,
    out: Seq<u8>,
    next: Next,
) -> bool {
    let exec_caps = (caps::CAP_STDIO | caps::CAP_EXEC) as u32;
    let kill_caps = (caps::CAP_STDIO | caps::CAP_EXEC | caps::CAP_PROC_CTL) as u32;
    if words.len() == 0 {
        s2 == s && out == Seq::<u8>::empty() && next == Next::Prompt
    } else {
        match command_of(words[0]) {
            Command::Help => s2 == s && out == fmt::text(HELP@) && next == Next::Prompt,
            Command::SyncCallTest => entered(
                KernelState { caps: caps::CAP_STDIO, ..s },
                fmt::text(SYNC_ALLOW@) + fmt::text(SYNC_LOAD@),
                elf::TEST_ELF_SYSCALL@,
                SYNC_STACK_VIRT,
                s2,
                out,
                next,
            ),
            Command::SyncCallDeny => entered(
                KernelState { caps: 0, ..s },
                fmt::text(SYNC_DENY@) + fmt::text(SYNC_LOAD@),
                elf::TEST_ELF_SYSCALL@,
                SYNC_STACK_VIRT,
                s2,
                out,
                next,
            ),
            Command::Ring3Test => entered(
                s,
                fmt::text(RING3_LOAD@),
                elf::TEST_ELF_RING3@,
                RING3_STACK_VIRT,
                s2,
                out,
                next,
            ),
            Command::ForkTest => launched(
                KernelState { caps: exec_caps, ..s },
                fmt::text(FORK_LOAD@),
                programs.fork@,
                FORK_STARTED,
                2,
                FORK_BACK,
                s2,
                out,
                next,
            ),
            Command::WaitTest => launched(
                KernelState { caps: exec_caps, ..s },
                fmt::text(WAIT_LOAD@),
                programs.fork_wait@,
                STARTED,
                2,
                WAIT_BACK,
                s2,
                out,
                next,
            ),
            Command::Exec => launched(
                KernelState {
                    caps: exec_caps,
                    files: s.files.insert("pingtest"@, programs.ping_exit@),
                    ..s
                },
                fmt::text(EXEC_LOAD@),
                programs.execve@,
                STARTED,
                2,
                EXEC_BACK,
                s2,
                out,
                next,
            ),
            Command::Ember => launched(
                KernelState {
                    caps: exec_caps,
                    files: s.files.insert("ember-svc0"@, programs.ping_exit@).insert(
                        "ember-svc1"@,
                        programs.ping_exit@,
                    ),
                    ..s
                },
                fmt::text(EMBER_LOAD@),
                programs.ember@,
                EMBER_STARTED,
                4,
                EMBER_BACK,
                s2,
                out,
                next,
            ),
            Command::PreemptTest => spinning(s, s2, out, next),
            Command::SegvTest => launched(
                KernelState { caps: exec_caps, ..s },
                fmt::text(SEGV_LOAD@),
                programs.segv@,
                STARTED,
                2,
                SEGV_BACK,
                s2,
                out,
                next,
            ),
            Command::KillTest => launched(
                KernelState { caps: kill_caps, ..s },
                fmt::text(KILL_LOAD@),
                programs.kill@,
                STARTED,
                2,
                KILL_BACK,
                s2,
                out,
                next,
            ),
            Command::PartInfo => s2 == s && disk_job(
                env.disk,
                None,
                JobInfo::Partitions,
                out,
                next,
            ),
            Command::Ext2Ls => s2 == s && disk_job(
                env.disk,
                usage_of(words, EXT2LS_USAGE),
                JobInfo::List(words[1]),
                out,
                next,
            ),
            Command::Ext2Cat => s2 == s && disk_job(
                env.disk,
                usage_of(words, EXT2CAT_USAGE),
                JobInfo::Show(words[1]),
                out,
                next,
            ),
            Command::Ps => {
                &&& s2 == s
                &&& out == fmt::text(PS_HEADER@) + process_lines(s.procs, s.procs.len())
                &&& next == Next::Prompt
            },
            Command::Ls => s2 == s && listed(s.files, out) && next == Next::Prompt,
            Command::Cat => s2 == s && out == cat_text(s.files, words) && next == Next::Prompt,
            Command::Write => {
                &&& s2 == written(s, words)
                &&& out == write_text(words)
                &&& next == Next::Prompt
            },
            Command::DiskTest => {
                &&& s2 == s
                &&& if env.disk {
                    out == fmt::text(DISK_TEST@) && next == Next::TestDisk(DISK_TEST_LBA)
                } else {
                    out == fmt::text(NO_DISK@) && next == Next::Prompt
                }
            },
            Command::Pci => s2 == s && out == Seq::<u8>::empty() && next == Next::ScanPci,
            Command::Ahci => s2 == s && out == Seq::<u8>::empty() && next == Next::ProbeDisks,
            Command::Net => s2 == s && out == Seq::<u8>::empty() && next == Next::ProbeNet,
            Command::Ping => s2 == s && out == fmt::text(ping::INIT@) && next == Next::Ping,
            Command::Fb => {
                &&& s2 == s
                &&& if env.screen {
                    out == Seq::<u8>::empty() && next == Next::DrawBanner(REDRAWN)
                } else {
                    out == fmt::text(NO_SCREEN@) && next == Next::Prompt
                }
            },
            Command::Meminfo => s2 == s && out == meminfo_text(s) && next == Next::Prompt,
            Command::Caps => s2 == s && out == caps_text() && next == Next::Prompt,
            Command::Bp => s2 == s && out == Seq::<u8>::empty() && next == Next::Breakpoint,
            Command::Panic => s2 == s && out == Seq::<u8>::empty() && next == Next::Panic(PANIC),
            Command::Unknown => {
                &&& s2 == s
                &&& out == fmt::text("comando desconocido: '"@) + fmt::text(words[0]) + fmt::text(
                    "' (prueba 'help')\r\n"@,
                )
                &&& next == Next::Prompt
            },
        }
    }
}

/// A fresh process that pledged this.
fn pledged(mask: u32) -> (r: Capabilities)
    ensures
        r@ == mask,
{
    let mut c = Capabilities::unrestricted();
    let _ = c.pledge(mask);
    c
}

/// The bytes of a text.
fn say(s: &str) -> (r: Vec<u8>)
    ensures
        r@ == fmt::text(s@),
{
    let mut out: Vec<u8> = Vec::new();
    fmt::push_text(&mut out, s);
    assert(out@ =~= fmt::text(s@));
    out
}

/// Carries a command line out.
pub fn dispatch(
    k: &mut Kernel,
    programs: &Programs,
    env: &Surroundings,
    line: &str,
) -> (r: Reply)
    requires
        old(k).wf(),
        loads(text::words(line@, 0)) ==> elf::fillable(
            old(k)@.mem,
            old(k)@.pool,
            old(k)@.cr3,
        ),
    ensures
        final(k).wf(),
        answered(
            old(k)@,
            *programs,
            *env,
            text::words(line@, 0),
            final(k)@,
            r.out@,
            r.next,
        ),
{
    let words = text::split_whitespace(line);
    let ghost said = text::texts(words@);
    if words.len() == 0 {
        return Reply { out: Vec::new(), next: Next::Prompt };
    }
    let cmd = words[0];
    assert(said[0] == cmd@);
    let exec_caps = caps::CAP_STDIO | caps::CAP_EXEC;
    let kill_caps = caps::CAP_STDIO | caps::CAP_EXEC | caps::CAP_PROC_CTL;
    match find_command(cmd) {
        Command::Help => Reply { out: say(HELP), next: Next::Prompt },
        Command::SyncCallTest => {
            let mut out = say(SYNC_ALLOW);
            fmt::push_text(&mut out, SYNC_LOAD);
            k.caps = pledged(caps::CAP_STDIO);
            enter_image(k, out, elf::TEST_ELF_SYSCALL.as_slice(), SYNC_STACK_VIRT)
        },
        Command::SyncCallDeny => {
            let mut out = say(SYNC_DENY);
            fmt::push_text(&mut out, SYNC_LOAD);
            k.caps = pledged(0);
            enter_image(k, out, elf::TEST_ELF_SYSCALL.as_slice(), SYNC_STACK_VIRT)
        },
        Command::Ring3Test => enter_image(
            k,
            say(RING3_LOAD),
            elf::TEST_ELF_RING3.as_slice(),
            RING3_STACK_VIRT,
        ),
        Command::ForkTest => {
            k.caps = pledged(exec_caps);
            launch_elf(k, say(FORK_LOAD), programs.fork.as_slice(), FORK_STARTED, 2, FORK_BACK)
        },
        Command::WaitTest => {
            k.caps = pledged(exec_caps);
            launch_elf(k, say(WAIT_LOAD), programs.fork_wait.as_slice(), STARTED, 2, WAIT_BACK)
        },
        Command::Exec => {
            vfs::write(&mut k.fs, "pingtest", programs.ping_exit.as_slice());
            k.caps = pledged(exec_caps);
            launch_elf(k, say(EXEC_LOAD), programs.execve.as_slice(), STARTED, 2, EXEC_BACK)
        },
        Command::Ember => {
            vfs::write(&mut k.fs, "ember-svc0", programs.ping_exit.as_slice());
            vfs::write(&mut k.fs, "ember-svc1", programs.ping_exit.as_slice());
            k.caps = pledged(exec_caps);
            launch_elf(k, say(EMBER_LOAD), programs.ember.as_slice(), EMBER_STARTED, 4, EMBER_BACK)
        },
        Command::PreemptTest => start_spinning(k),
        Command::SegvTest => {
            k.caps = pledged(exec_caps);
            launch_elf(k, say(SEGV_LOAD), programs.segv.as_slice(), STARTED, 2, SEGV_BACK)
        },
        Command::KillTest => {
            k.caps = pledged(kill_caps);
            launch_elf(k, say(KILL_LOAD), programs.kill.as_slice(), STARTED, 2, KILL_BACK)
        },
        Command::PartInfo => if env.disk {
            Reply { out: Vec::new(), next: Next::Disk(DiskJob::Partitions) }
        } else {
            Reply { out: say(NO_DISK), next: Next::Prompt }
        },
        Command::Ext2Ls => if words.len() < 2 {
            Reply { out: say(EXT2LS_USAGE), next: Next::Prompt }
        } else if env.disk {
            assert(said[1] == words@[1]@);
            Reply { out: Vec::new(), next: Next::Disk(DiskJob::List(words[1].to_owned())) }
        } else {
            Reply { out: say(NO_DISK), next: Next::Prompt }
        },
        Command::Ext2Cat => if words.len() < 2 {
            Reply { out: say(EXT2CAT_USAGE), next: Next::Prompt }
        } else if env.disk {
            assert(said[1] == words@[1]@);
            Reply { out: Vec::new(), next: Next::Disk(DiskJob::Show(words[1].to_owned())) }
        } else {
            Reply { out: say(NO_DISK), next: Next::Prompt }
        },
        Command::Ps => Reply { out: list_processes(k), next: Next::Prompt },
        Command::Ls => Reply { out: list_files(k), next: Next::Prompt },
        Command::Cat => Reply { out: cat(k, &words), next: Next::Prompt },
        Command::Write => Reply { out: write_file(k, &words), next: Next::Prompt },
        Command::DiskTest => if env.disk {
            Reply { out: say(DISK_TEST), next: Next::TestDisk(DISK_TEST_LBA) }
        } else {
            Reply { out: say(NO_DISK), next: Next::Prompt }
        },
        Command::Pci => Reply { out: Vec::new(), next: Next::ScanPci },
        Command::Ahci => Reply { out: Vec::new(), next: Next::ProbeDisks },
        Command::Net => Reply { out: Vec::new(), next: Next::ProbeNet },
        Command::Ping => Reply { out: say(ping::INIT), next: Next::Ping },
        Command::Fb => if env.screen {
            Reply { out: Vec::new(), next: Next::DrawBanner(REDRAWN) }
        } else {
            Reply { out: say(NO_SCREEN), next: Next::Prompt }
        },
        Command::Meminfo => Reply { out: meminfo(k), next: Next::Prompt },
        Command::Caps => Reply { out: run_caps_demo(), next: Next::Prompt },
        Command::Bp => Reply { out: Vec::new(), next: Next::Breakpoint },
        Command::Panic => Reply { out: Vec::new(), next: Next::Panic(PANIC) },
        Command::Unknown => {
            let mut out = say("comando desconocido: '");
            fmt::push_text(&mut out, cmd);
            fmt::push_text(&mut out, "' (prueba 'help')\r\n");
            Reply { out, next: Next::Prompt }
        },
    }
}

// --- laws --------------------------------------------------------------------------

/// `cat` shows what `write` stored under the same name.
pub proof fn law_cat_shows_what_was_written(
    s: KernelState,
    write: Seq<Seq<char>>,
    cat: Seq<Seq<char>>,
)
    requires
        write.len() >= 3,
        cat.len() >= 2,
        cat[1] == write[1],
    ensures
        cat_text(written(s, write).files, cat) == joined(write, write.len()) + fmt::text("\r\n"@),
{
}

/// A line of white space does nothing.
pub proof fn law_blank_line_does_nothing(
    s: KernelState,
    programs: Programs,
    env: Surroundings,
    line: Seq<char>,
    s2: KernelState,
    out: Seq<u8>,
    next: Next,
)
    requires
        forall|i: int| 0 <= i < line.len() ==> text::is_space(#[trigger] line[i]),
        answered(s, programs, env, text::words(line, 0), s2, out, next),
    ensures
        s2 == s,
        out == Seq::<u8>::empty(),
        next == Next::Prompt,
{
    lemma_no_words(line, 0);
}

proof fn lemma_no_words(line: Seq<char>, i: int)
    requires
        0 <= i,
        forall|i: int| 0 <= i < line.len() ==> text::is_space(#[trigger] line[i]),
    ensures
        text::words(line, i).len() == 0,
    decreases line.len() - i,
{
    if i < line.len() {
        lemma_no_words(line, i + 1);
    }
}

/// A program that cannot be loaded leaves processes, tasks and files as they
/// were, and the console goes on.
pub proof fn law_bad_program_is_only_reported(
    s: KernelState,
    said: Seq<u8>,
    image: Seq<u8>,
    tail: &'static str,
    turns: u32,
    report: &'static str,
    s2: KernelState,
    out: Seq<u8>,
    next: Next,
)
    requires
        launched(s, said, image, tail, turns, report, s2, out, next),
        elf::prepared(s.mem, s.pool, s.cr3, image, LAUNCH_STACK_VIRT).2 is Err,
    ensures
        s2.procs == s.procs,
        s2.tasks == s.tasks,
        s2.files == s.files,
        s2.next_pid == s.next_pid,
        s2.cr3 == s.cr3,
        next == Next::Prompt,
{
}

/// The content that `write` stores is its words from the third on, with one blank
/// between two of them: one word is its own bytes, and one more word adds a blank
/// and its bytes.
pub proof fn law_words_are_stored_in_order(words: Seq<Seq<char>>, more: Seq<char>)
    requires
        words.len() >= 3,
    ensures
        words.len() == 3 ==> joined(words, words.len()) == vstd::utf8::encode_utf8(words[2]),
        joined(words.push(more), words.push(more).len()) == joined(words, words.len()) + seq![0x20u8]
            + vstd::utf8::encode_utf8(more),
{
    lemma_joined_prefix(words, more, words.len());
}

proof fn lemma_joined_prefix(words: Seq<Seq<char>>, more: Seq<char>, n: nat)
    requires
        n <= words.len(),
    ensures
        joined(words.push(more), n) == joined(words, n),
    decreases n,
{
    if n > 3 {
        lemma_joined_prefix(words, more, (n - 1) as nat);
    }
}

/// `write` with a name and at least one word replaces the file of that name and
/// no other, and `cat` with the name shows just what was stored and a line end.
/// Neither touches anything else; of a name without a file `cat` shows no content.
pub proof fn law_write_and_cat(
    s: KernelState,
    programs: Programs,
    env: Surroundings,
    words: Seq<Seq<char>>,
    s2: KernelState,
    out: Seq<u8>,
    next: Next,
)
    requires
        answered(s, programs, env, words, s2, out, next),
        words.len() > 0,
    ensures
        words[0] == "write"@ ==> next == Next::Prompt && s2 == (KernelState {
            files: s2.files,
            ..s
        }),
        words[0] == "write"@ && words.len() >= 3 ==> s2.files.contains_key(words[1])
            && s2.files[words[1]] == joined(words, words.len()) && (forall|other: Seq<char>|
            other != words[1] ==> (#[trigger] s2.files.contains_key(other) == s.files.contains_key(
                other,
            ) && (s.files.contains_key(other) ==> s2.files[other] == s.files[other]))),
        words[0] == "write"@ && words.len() < 3 ==> s2 == s,
        words[0] == "cat"@ ==> s2 == s && next == Next::Prompt,
        words[0] == "cat"@ && words.len() >= 2 && s.files.contains_key(words[1]) ==> out
            == s.files[words[1]] + seq![0x0Du8, 0x0Au8],
{
    lemma_line_end();
    if words[0] == "write"@ {
        lemma_write_is_a_command();
    }
    if words[0] == "cat"@ {
        lemma_cat_is_a_command();
    }
}

proof fn lemma_line_end()
    ensures
        fmt::text("\r\n"@) == seq![0x0Du8, 0x0Au8],
{
    reveal_strlit("\r\n");
    vstd::utf8::is_ascii_chars_encode_utf8("\r\n"@);
    assert("\r\n"@[0] == '\r' && "\r\n"@[1] == '\n');
    assert(fmt::text("\r\n"@) =~= seq![0x0Du8, 0x0Au8]);
}

proof fn lemma_write_is_a_command()
    ensures
        command_of("write"@) == Command::Write,
{
    reveal_strlit("write");
    reveal_strlit("help");
    reveal_strlit("synccalltest");
    reveal_strlit("synccalldeny");
    reveal_strlit("ring3test");
    reveal_strlit("forktest");
    reveal_strlit("waittest");
    reveal_strlit("exec");
    reveal_strlit("ember");
    reveal_strlit("ps");
    reveal_strlit("ls");
    reveal_strlit("cat");
    assert("write"@.len() == 5 && "write"@[0] == 'w' && "ember"@[0] == 'e');
}

proof fn lemma_cat_is_a_command()
    ensures
        command_of("cat"@) == Command::Cat,
{
    reveal_strlit("help");
    reveal_strlit("synccalltest");
    reveal_strlit("synccalldeny");
    reveal_strlit("ring3test");
    reveal_strlit("forktest");
    reveal_strlit("waittest");
    reveal_strlit("exec");
    reveal_strlit("ember");
    reveal_strlit("ps");
    reveal_strlit("ls");
    reveal_strlit("cat");
    assert("cat"@.len() == 3 && "help"@.len() == 4 && "ps"@.len() == 2 && "ls"@.len() == 2);
    assert("synccalltest"@.len() == 12 && "synccalldeny"@.len() == 12 && "ring3test"@.len() == 9);
    assert("forktest"@.len() == 8 && "waittest"@.len() == 8 && "exec"@.len() == 4);
    assert("ember"@.len() == 5);
}

/// Whether `s` is a decimal number and stands for `n`.
pub open spec fn tells(s: Seq<u8>, n: int) -> bool {
    &&& s.len() > 0
    &&& forall|i: int| 0 <= i < s.len() ==> 0x30 <= #[trigger] s[i] <= 0x39
    &&& fmt::value_of(s) == n
}

/// `meminfo` tells the free frames, their size in KiB, four to each, and the
/// bytes of the heap in use.
pub proof fn law_meminfo_tells_what_is_free(s: KernelState, free: int, size: int, taken: int)
    requires
        free == s.pool.len(),
        size == 4 * free,
        taken == s.heap + s.blocks,
    ensures
        exists|frames: Seq<u8>, kib: Seq<u8>, used: Seq<u8>|
            #![trigger tells(frames, free), tells(kib, size), tells(used, taken)]
            tells(frames, free) && tells(kib, size) && tells(used, taken) && meminfo_text(s)
                == fmt::text("frames libres: "@) + frames + fmt::text(" (~"@) + kib + fmt::text(
                " KiB)\r\nheap usado: "@,
            ) + used + fmt::text(" bytes\r\n"@),
{
    fmt::law_decimal_reads_back(free as nat);
    fmt::law_decimal_reads_back(size as nat);
    fmt::law_decimal_reads_back(taken as nat);
    assert(tells(fmt::decimal(free as nat), free));
    assert(tells(fmt::decimal(size as nat), size));
    assert(tells(fmt::decimal(taken as nat), taken));
}

/// Each process has a line of its own in the list, in the order of the table: one
/// more process adds one line, which starts with its PID in a column of four and
/// its parent in one of five and tells whether it runs or with which code it
/// ended.
pub proof fn law_every_process_has_a_line(procs: Seq<Pcb>, p: Pcb)
    ensures
        process_lines(Seq::empty(), 0) == Seq::<u8>::empty(),
        process_lines(procs.push(p), procs.push(p).len()) == process_lines(procs, procs.len())
            + process_line(p),
        exists|pid: Seq<u8>, parent: Seq<u8>, state: Seq<u8>|
            #![trigger tells(pid, p.pid as int), tells(parent, p.parent_pid as int), state.len()]
            tells(pid, p.pid as int) && tells(parent, p.parent_pid as int) && process_line(p)
                == fmt::left_aligned(pid, 4) + fmt::text(" "@) + fmt::left_aligned(parent, 5)
                + fmt::text(" "@) + state + fmt::text("\r\n"@) && (p.state is Running ==> state
                == fmt::text("running"@)) && (p.state matches ProcessState::Zombie(code) ==> state
                == fmt::text("zombie(code="@) + fmt::signed(code as int) + fmt::text(")"@)),
{
    lemma_lines_before(procs, p, procs.len());
    assert(procs.push(p).len() == procs.len() + 1);
    assert(procs.push(p)[procs.len() as int] == p);
    fmt::law_decimal_reads_back(p.pid as nat);
    fmt::law_decimal_reads_back(p.parent_pid as nat);
    let (pid, parent) = (fmt::decimal(p.pid as nat), fmt::decimal(p.parent_pid as nat));
    let state = match p.state {
        ProcessState::Running => fmt::text("running"@),
        ProcessState::Zombie(code) => fmt::text("zombie(code="@) + fmt::signed(code as int)
            + fmt::text(")"@),
    };
    assert(tells(pid, p.pid as int) && tells(parent, p.parent_pid as int) && state.len() >= 0);
}

proof fn lemma_lines_before(procs: Seq<Pcb>, p: Pcb, n: nat)
    requires
        n <= procs.len(),
    ensures
        process_lines(procs.push(p), n) == process_lines(procs, n),
    decreases n,
{
    if n > 0 {
        lemma_lines_before(procs, p, (n - 1) as nat);
    }
}

/// The program that a command starts as a process.
pub open spec fn program_of(programs: Programs, command: Command) -> Option<Seq<u8>> {
    match command {
        Command::ForkTest => Some(programs.fork@),
        Command::WaitTest => Some(programs.fork_wait@),
        Command::Exec => Some(programs.execve@),
        Command::Ember => Some(programs.ember@),
        Command::SegvTest => Some(programs.segv@),
        Command::KillTest => Some(programs.kill@),
        _ => None,
    }
}

/// A command that starts a program starts its own: if that can be loaded and the
/// heap has room, there is one process more, without a parent, in the new space;
/// it starts at the entry point that the program states, and may print and start
/// programs, but end others only if it is the one that tries just that. The
/// console then passes the turn on so that it runs.
pub proof fn law_commands_start_their_programs(
    s: KernelState,
    programs: Programs,
    env: Surroundings,
    words: Seq<Seq<char>>,
    s2: KernelState,
    out: Seq<u8>,
    next: Next,
    image: Seq<u8>,
)
    requires
        answered(s, programs, env, words, s2, out, next),
        words.len() > 0,
        program_of(programs, command_of(words[0])) == Some(image),
        elf::prepared(s.mem, s.pool, s.cr3, image, LAUNCH_STACK_VIRT).2 is Ok,
        syscall::stacks_fit(s),
    ensures
        s2.procs.len() == s.procs.len() + 1,
        s2.procs.last().pid == s.next_pid,
        s2.procs.last().parent_pid == 0,
        s2.procs.last().page_table == pmm::lowest_frame(s.pool),
        s2.procs.drop_last() == s.procs,
        s2.tasks.len() == s.tasks.len() + 1,
        s2.tasks.last().pid == s.next_pid,
        s2.launch.entry == bytes::le64(image, 24),
        s2.launch.stack == LAUNCH_STACK_VIRT + 4096,
        s2.caps % 2 == 1,
        s2.caps / 8 % 2 == 1,
        s2.caps / 512 % 2 == 1 <==> command_of(words[0]) == Command::KillTest,
        s2.caps / 16 % 2 == 0,
        next is Turns,
        next->entry_slot == s2.tasks.last().context.rsp,
        next->turns >= 2,
        command_of(words[0]) == Command::Exec ==> s2.files.contains_key("pingtest"@)
            && s2.files["pingtest"@] == programs.ping_exit@,
{
    assert(0x1u32 | 0x8 == 0x9 && 0x1u32 | 0x8 | 0x200 == 0x209) by (bit_vector);
    let exec_caps = (caps::CAP_STDIO | caps::CAP_EXEC) as u32;
    let kill_caps = (caps::CAP_STDIO | caps::CAP_EXEC | caps::CAP_PROC_CTL) as u32;
    match command_of(words[0]) {
        Command::ForkTest => {
            lemma_launched(
                KernelState { caps: exec_caps, ..s },
                fmt::text(FORK_LOAD@),
                programs.fork@,
                FORK_STARTED,
                2,
                FORK_BACK,
                s2,
                out,
                next,
            );
        },
        Command::WaitTest => {
            lemma_launched(
                KernelState { caps: exec_caps, ..s },
                fmt::text(WAIT_LOAD@),
                programs.fork_wait@,
                STARTED,
                2,
                WAIT_BACK,
                s2,
                out,
                next,
            );
        },
        Command::Exec => {
            lemma_launched(
                KernelState { caps: exec_caps, files: s.files.insert("pingtest"@, programs.ping_exit@), ..s },
                fmt::text(EXEC_LOAD@),
                programs.execve@,
                STARTED,
                2,
                EXEC_BACK,
                s2,
                out,
                next,
            );
        },
        Command::Ember => {
            lemma_launched(
                KernelState { caps: exec_caps, files: s.files.insert("ember-svc0"@, programs.ping_exit@).insert(
                        "ember-svc1"@,
                        programs.ping_exit@,
                    ), ..s },
                fmt::text(EMBER_LOAD@),
                programs.ember@,
                EMBER_STARTED,
                4,
                EMBER_BACK,
                s2,
                out,
                next,
            );
        },
        Command::SegvTest => {
            lemma_launched(
                KernelState { caps: exec_caps, ..s },
                fmt::text(SEGV_LOAD@),
                programs.segv@,
                STARTED,
                2,
                SEGV_BACK,
                s2,
                out,
                next,
            );
        },
        Command::KillTest => {
            lemma_launched(
                KernelState { caps: kill_caps, ..s },
                fmt::text(KILL_LOAD@),
                programs.kill@,
                STARTED,
                2,
                KILL_BACK,
                s2,
                out,
                next,
            );
        },
        _ => {},
    }
}

proof fn lemma_launched(
    s: KernelState,
    said: Seq<u8>,
    image: Seq<u8>,
    tail: &'static str,
    turns: u32,
    report: &'static str,
    s2: KernelState,
    out: Seq<u8>,
    next: Next,
)
    requires
        launched(s, said, image, tail, turns, report, s2, out, next),
        elf::prepared(s.mem, s.pool, s.cr3, image, LAUNCH_STACK_VIRT).2 is Ok,
        syscall::stacks_fit(s),
    ensures
        s2.procs.len() == s.procs.len() + 1,
        s2.procs.last().pid == s.next_pid,
        s2.procs.last().parent_pid == 0,
        s2.procs.last().page_table == pmm::lowest_frame(s.pool),
        s2.procs.drop_last() == s.procs,
        s2.tasks.len() == s.tasks.len() + 1,
        s2.tasks.last().pid == s.next_pid,
        s2.launch.entry == bytes::le64(image, 24),
        s2.launch.stack == LAUNCH_STACK_VIRT + 4096,
        s2.caps == s.caps,
        s2.files == s.files,
        next is Turns,
        next->entry_slot == s2.tasks.last().context.rsp,
        next->turns == turns,
{
    assert(s2.procs.drop_last() =~= s.procs);
    assert(0 <= bytes::le64(image, 24) <= u64::MAX);
}

/// Each file has a line of its own in the list: one more name adds its bytes and
/// a line end.
pub proof fn law_every_file_has_a_line(names: Seq<Seq<char>>, name: Seq<char>)
    ensures
        name_lines(Seq::empty(), 0) == Seq::<u8>::empty(),
        name_lines(names.push(name), names.push(name).len()) == name_lines(names, names.len())
            + vstd::utf8::encode_utf8(name) + seq![0x0Du8, 0x0Au8],
{
    lemma_line_end();
    lemma_names_before(names, name, names.len());
    assert(names.push(name).len() == names.len() + 1);
    assert(names.push(name)[names.len() as int] == name);
}

proof fn lemma_names_before(names: Seq<Seq<char>>, name: Seq<char>, n: nat)
    requires
        n <= names.len(),
    ensures
        name_lines(names.push(name), n) == name_lines(names, n),
    decreases n,
{
    if n > 0 {
        lemma_names_before(names, name, (n - 1) as nat);
    }
}

/// The preemption test starts two kernel threads, each at the top of a stack of
/// its own from the heap, and lets the timer tick 20 times.
pub proof fn law_two_threads_spin(s: KernelState, s2: KernelState, out: Seq<u8>, next: Next)
    requires
        spinning(s, s2, out, next),
        syscall::stacks_fit(s),
        s.heap_start + heap::HEAP_SIZE <= u64::MAX,
        s.tasks.len() + 2 <= u64::MAX,
    ensures
        s2.tasks.len() == s.tasks.len() + 2,
        s2.tasks.take(s.tasks.len() as int) == s.tasks,
        s2.procs == s.procs,
        s2.heap == s.heap + 32768,
        ({
            let (a, b) = (s2.tasks[s.tasks.len() as int], s2.tasks[s.tasks.len() as int + 1]);
            let bottom = s.heap_start + s.heap;
            &&& a.pid == 0 && b.pid == 0 && a.page_table == 0 && b.page_table == 0
            &&& a.id == s.tasks.len() && b.id == s.tasks.len() + 1
            &&& a.state == task::TaskState::Ready && b.state == task::TaskState::Ready
            &&& bottom <= a.context.rsp < bottom + 16384 <= b.context.rsp < bottom + 32768
            &&& next matches Next::Preempt { slots, first, ticks } && slots == (
                a.context.rsp,
                b.context.rsp,
            ) && first == s.tasks.len() && ticks == 20
        }),
{
    let bottom = s.heap_start + s.heap;
    task::law_stack_layout(bottom as u64, (bottom + 16384) as u64);
    task::law_stack_layout((bottom + 16384) as u64, bottom as u64);
    assert(s2.tasks.take(s.tasks.len() as int) =~= s.tasks);
}

} // verus!
