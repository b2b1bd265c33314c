//! Signals. Their only action is to terminate the process; no process can
//! install a handler.
use vstd::prelude::*;
use crate::fmt;
use crate::mem::PhysMemory;
use crate::mmu;
use crate::pmm::{self, FrameBitmap};
use crate::process::{self, ProcessState, ProcessTable};
use crate::scheduler::{self, Scheduler};

verus! {

pub const SIGKILL: u32 = 9;

pub const SIGSEGV: u32 = 11;

pub const SIGTERM: u32 = 15;

pub open spec fn name_of(sig: u32) -> &'static str {
    if sig == SIGKILL {
        "SIGKILL"
    } else if sig == SIGSEGV {
        "SIGSEGV"
    } else if sig == SIGTERM {
        "SIGTERM"
    } else {
        "señal desconocida"
    }
}

pub fn signal_name(sig: u32) -> (r: &'static str)
    ensures
        r == name_of(sig),
{
    if sig == SIGKILL {
        "SIGKILL"
    } else if sig == SIGSEGV {
        "SIGSEGV"
    } else if sig == SIGTERM {
        "SIGTERM"
    } else {
        "señal desconocida"
    }
}

/// `x` as a signed number of 32 bits.
pub open spec fn signed32(x: int) -> int {
    let low = x % 0x1_0000_0000;
    if low < 0x8000_0000 {
        low
    } else {
        low - 0x1_0000_0000
    }
}

/// The low 32 bits of `x` as a signed number.
pub fn low_i32(x: u64) -> (r: i32)
    ensures
        r == signed32(x as int),
{
    let low = x % 0x1_0000_0000;
    if low < 0x8000_0000 {
        low as i32
    } else {
        (low as i64 - 0x1_0000_0000) as i32
    }
}

/// Exit code of a process that a signal terminated: 128 and the number of the
/// signal, so that it differs from an exit of its own with 0 to 127.
pub open spec fn exit_code(sig: u32) -> int {
    signed32(128 + sig)
}

/// The table after `pid` was marked as terminated with `code`.
pub open spec fn zombified(s: Seq<process::Pcb>, pid: u64, code: i32) -> Seq<process::Pcb> {
    match process::position(s, pid) {
        Some(i) => s.update(i, process::Pcb { state: ProcessState::Zombie(code), ..s[i] }),
        None => s,
    }
}

/// The table after a signal terminated `pid`. The address space of a process
/// that is not the running one is released with it.
pub open spec fn terminated(
    s: Seq<process::Pcb>,
    pid: u64,
    code: i32,
    space_released: bool,
) -> Seq<process::Pcb> {
    match process::position(s, pid) {
        Some(i) => s.update(
            i,
            process::Pcb {
                state: ProcessState::Zombie(code),
                space_released: space_released || s[i].space_released,
                ..s[i]
            },
        ),
        None => s,
    }
}

/// Terminates a process: it becomes a zombie and never gets a turn again. If it
/// is not the running one its memory is released at once; the running process
/// keeps its address space, which is the active one. `false` if there is no
/// such process or it is a zombie already; nothing changes then.
pub fn deliver_default(
    procs: &mut ProcessTable,
    sched: &mut Scheduler,
    mem: &PhysMemory,
    pmm: &mut FrameBitmap,
    pid: u64,
    sig: u32,
) -> (r: bool)
    requires
        mem.wf(),
        old(pmm).wf(),
        old(sched).wf(),
        process::lookup(old(procs).procs@, pid) matches Some(p) ==> (p.state is Running && pid
            != old(procs).current_pid ==> mmu::wf_tree(mem@, p.page_table, 3)),
    ensures
        final(pmm).wf(),
        final(sched).wf(),
        final(sched).current == old(sched).current,
        final(procs).next_pid == old(procs).next_pid,
        final(procs).current_pid == old(procs).current_pid,
        r == (process::lookup(old(procs).procs@, pid) matches Some(p) && p.state is Running),
        r ==> {
            &&& final(procs).procs@ == terminated(
                old(procs).procs@,
                pid,
                exit_code(sig) as i32,
                pid != old(procs).current_pid,
            )
            &&& final(sched).tasks@ == scheduler::finish_pid(old(sched).tasks@, pid)
            &&& forall|g: u64| #[trigger]
                final(pmm)@.contains(g) <==> old(pmm)@.contains(g) || (pid
                    != old(procs).current_pid && g < pmm::MANAGED_BYTES && mmu::owns(
                    mem@,
                    process::lookup(old(procs).procs@, pid)->0.page_table,
                    3,
                    1,
                    g,
                ))
        },
        !r ==> {
            &&& final(procs).procs@ == old(procs).procs@
            &&& final(sched).tasks@ == old(sched).tasks@
            &&& final(pmm)@ == old(pmm)@
        },
{
    let pcb = match process::find(procs, pid) {
        Some(p) => p,
        None => {
            return false;
        },
    };
    if let ProcessState::Zombie(_) = pcb.state {
        return false;
    }
    let code = low_i32(128 + sig as u64);
    if pid != process::current_pid(procs) {
        mmu::free_address_space(mem, pmm, pcb.page_table);
        process::mark_zombie_released(procs, pid, code);
    } else {
        process::mark_zombie(procs, pid, code);
    }
    scheduler::mark_finished_by_pid(sched, pid);
    true
}

/// What is logged of the end of the running process.
pub open spec fn kill_text(pid: u64, sig: u32) -> Seq<u8> {
    fmt::text("[signal] PID "@) + fmt::decimal(pid as nat) + fmt::text(" recibe "@) + fmt::text(
        name_of(sig)@,
    ) + fmt::text(" — terminando (sin manejador propio instalado)\n"@)
}

/// Terminates the running process, and logs it.
#[verifier::rlimit(30)]
pub fn kill_current(
    procs: &mut ProcessTable,
    sched: &mut Scheduler,
    mem: &PhysMemory,
    pmm: &mut FrameBitmap,
    sig: u32,
    log: &mut Vec<u8>,
) -> (r: bool)
    requires
        mem.wf(),
        old(pmm).wf(),
        old(sched).wf(),
    ensures
        final(pmm).wf(),
        final(sched).wf(),
        final(pmm)@ == old(pmm)@,
        final(log)@ == old(log)@ + kill_text(old(procs).current_pid, sig),
        final(sched).current == old(sched).current,
        final(procs).next_pid == old(procs).next_pid,
        final(procs).current_pid == old(procs).current_pid,
        r == (process::lookup(old(procs).procs@, old(procs).current_pid) matches Some(p)
            && p.state is Running),
        r ==> {
            &&& final(procs).procs@ == zombified(
                old(procs).procs@,
                old(procs).current_pid,
                exit_code(sig) as i32,
            )
            &&& final(sched).tasks@ == scheduler::finish_pid(
                old(sched).tasks@,
                old(procs).current_pid,
            )
        },
        !r ==> {
            &&& final(procs).procs@ == old(procs).procs@
            &&& final(sched).tasks@ == old(sched).tasks@
        },
{
    let pid = process::current_pid(procs);
    fmt::push_text(log, "[signal] PID ");
    fmt::push_decimal(log, pid);
    fmt::push_text(log, " recibe ");
    fmt::push_text(log, signal_name(sig));
    fmt::push_text(log, " — terminando (sin manejador propio instalado)\n");
    assert(log@ =~= old(log)@ + kill_text(pid, sig));
    let r = deliver_default(procs, sched, mem, pmm, pid, sig);
    assert(pmm@ =~= old(pmm)@);
    r
}

/// The code that a signal leaves is 128 more than its number, so it tells the
/// signal, and a signal below 128 from every exit with 0 to 127.
pub proof fn law_exit_code_tells_the_signal(sig: u32)
    requires
        sig < 0x7FFF_FF80,
    ensures
        exit_code(sig) == 128 + sig,
{
}

/// A number of 32 bits with a sign stands for itself cut to 32 bits, where the
/// highest bit counts negative.
pub proof fn law_low_half_is_signed(x: u64)
    ensures
        -0x8000_0000 <= signed32(x as int) < 0x8000_0000,
        (x - signed32(x as int)) % 0x1_0000_0000 == 0,
{
    vstd::arithmetic::div_mod::lemma_fundamental_div_mod(x as int, 0x1_0000_0000);
}

/// A process that a signal ended is a zombie with the code; every other entry of
/// the table stays as it was.
pub proof fn law_only_the_target_ends(
    s: Seq<process::Pcb>,
    i: int,
    code: i32,
    space_released: bool,
)
    requires
        0 <= i < s.len(),
        forall|j: int| 0 <= j < i ==> (#[trigger] s[j]).pid != s[i].pid,
    ensures
        zombified(s, s[i].pid, code) == s.take(i).push(
            process::Pcb { state: ProcessState::Zombie(code), ..s[i] },
        ) + s.skip(i + 1),
        terminated(s, s[i].pid, code, space_released) == s.take(i).push(
            process::Pcb {
                state: ProcessState::Zombie(code),
                space_released: space_released || s[i].space_released,
                ..s[i]
            },
        ) + s.skip(i + 1),
{
    assert(process::is_first(s, s[i].pid, i));
    process::lemma_position(s, s[i].pid, i);
}

} // verus!
