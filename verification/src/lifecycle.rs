//! Processes and their address spaces from call to call: the system calls keep
//! all address spaces in order, so that the next call can rely on it.
use vstd::prelude::*;
use crate::caps;
use crate::elf;
use crate::mmu::{self, Frames};
use crate::pmm;
use crate::process::{self, Pcb};
use crate::spaces;
use crate::syscall::{self, KernelState, Outcome, SyscallFrame};
use crate::user;

verus! {

/// The address spaces at `roots` account for the state: the active one is among
/// them, and so is that of every process, each process having its own. Only a
/// zombie may be without, its memory having been released already. PIDs are given
/// out once.
pub open spec fn accounted(s: KernelState, roots: Set<u64>) -> bool {
    &&& roots.contains(s.cr3)
    &&& forall|i: int|
        0 <= i < s.procs.len() && !(#[trigger] s.procs[i]).space_released ==> roots.contains(
            s.procs[i].page_table,
        )
    &&& forall|i: int, j: int|
        0 <= i < j < s.procs.len() ==> (#[trigger] s.procs[i]).pid != (#[trigger] s.procs[j]).pid
    &&& forall|i: int, j: int|
        0 <= i < j < s.procs.len() && !(#[trigger] s.procs[i]).space_released && !(
        #[trigger] s.procs[j]).space_released ==> s.procs[i].page_table != s.procs[j].page_table
    &&& forall|i: int| 0 <= i < s.procs.len() ==> (#[trigger] s.procs[i]).pid < s.next_pid
    &&& forall|i: int|
        0 <= i < s.procs.len() && (#[trigger] s.procs[i]).space_released ==> s.procs[i].state
            is Zombie
}

/// Whether a status word at address `v` lies in no page table.
pub open spec fn status_clear(s: KernelState, roots: Set<u64>, e0: u64, v: int) -> bool {
    forall|i: int|
        0 <= i < 4 ==> (#[trigger] user::place(s.mem, s.cr3, v + i) matches Some((f, _)) ==> {
            &&& !mmu::in_tree(s.mem, spaces::kernel_table(e0), 2, f)
            &&& forall|r: u64| #[trigger] roots.contains(r) ==> !mmu::in_tree(s.mem, r, 3, f)
        })
}

/// What the calls rely on beyond that. `fork` comes from a running process while
/// PIDs last. `wait` releases no address space that is the active one, and
/// stores its code outside of the page tables. `kill`
/// ends a process whose address space is not the active one.
pub open spec fn proper(
    s: KernelState,
    frame: SyscallFrame,
    roots: Set<u64>,
    e0: u64,
) -> bool {
    if frame.num == syscall::SYS_FORK {
        &&& s.next_pid < u64::MAX
        &&& process::lookup(s.procs, s.current_pid) matches Some(p) ==> p.state
            is Running
    } else if frame.num == syscall::SYS_WAIT {
        process::zombie_child(s.procs, s.current_pid) matches Some(i) ==> {
            &&& s.procs[i].space_released || s.procs[i].page_table != s.cr3
            &&& frame.arg0 != 0 ==> status_clear(s, roots, e0, frame.arg0 as int)
        }
    } else if frame.num == syscall::SYS_KILL {
        process::lookup(s.procs, frame.arg0) matches Some(p) ==> frame.arg0 == s.current_pid
            || p.page_table != s.cr3
    } else {
        true
    }
}

/// Whether `execve` names a file whose segments are written to no page table, if
/// it names a file.
pub open spec fn exec_spares(
    s: KernelState,
    frame: SyscallFrame,
    roots: Set<u64>,
    e0: u64,
) -> bool {
    user::name_from(s.mem, s.cr3, frame.arg0 as int, Seq::empty()) matches Some(name) ==> {
        let text = vstd::utf8::decode_utf8(name);
        vstd::utf8::valid_utf8(name) && s.files.contains_key(text) ==> spaces::image_spares(
            s.mem,
            s.pool,
            roots,
            e0,
            s.cr3,
            s.files[text],
        )
    }
}

/// The address spaces after a call: a fork and a program that starts add one;
/// collecting a child and ending another process release one.
pub open spec fn spaces_after(
    s: KernelState,
    frame: SyscallFrame,
    s2: KernelState,
    out: Outcome,
    roots: Set<u64>,
) -> Set<u64> {
    if frame.num == syscall::SYS_FORK && s2.procs.len() > s.procs.len() {
        roots.insert(s2.procs.last().page_table)
    } else if frame.num == syscall::SYS_EXECVE && out is Enter {
        roots.insert(s2.cr3)
    } else if frame.num == syscall::SYS_WAIT && s2.procs.len() < s.procs.len() && !s.procs[
        process::zombie_child(s.procs, s.current_pid)->0].space_released {
        roots.remove(s.procs[process::zombie_child(s.procs, s.current_pid)->0].page_table)
    } else if frame.num == syscall::SYS_KILL && out == Outcome::Return(0) {
        roots.remove(process::lookup(s.procs, frame.arg0)->0.page_table)
    } else {
        roots
    }
}

/// The first entry of a PID.
proof fn lemma_found(s: Seq<Pcb>, pid: u64)
    ensures
        process::position(s, pid) matches Some(i) ==> 0 <= i < s.len() && s[i].pid == pid
            && process::lookup(s, pid) == Some(s[i]),
        process::position(s, pid) is None ==> process::lookup(s, pid) is None,
{
}

/// On a sound state every proper call can be performed.
pub proof fn law_proper_calls_are_ready(
    s: KernelState,
    frame: SyscallFrame,
    roots: Set<u64>,
    e0: u64,
)
    requires
        spaces::sound(s.mem, s.pool, roots, e0),
        accounted(s, roots),
        proper(s, frame, roots, e0),
    ensures
        syscall::ready(s, frame),
{
    spaces::law_sound_spaces_are_usable(s.mem, s.pool, roots, e0, s.cr3);
    lemma_found(s.procs, s.current_pid);
    lemma_found(s.procs, frame.arg0);
    if frame.num == syscall::SYS_FORK {
        if let Some(i) = process::position(s.procs, s.current_pid) {
            assert(roots.contains(s.procs[i].page_table));
            spaces::law_sound_spaces_are_usable(s.mem, s.pool, roots, e0, s.procs[i].page_table);
        }
    } else if frame.num == syscall::SYS_WAIT {
        if let Some(i) = process::zombie_child(s.procs, s.current_pid) {
            assert(process::is_first_zombie(s.procs, s.current_pid, i));
            if !s.procs[i].space_released {
                assert(roots.contains(s.procs[i].page_table));
                spaces::law_sound_spaces_are_usable(
                    s.mem,
                    s.pool,
                    roots,
                    e0,
                    s.procs[i].page_table,
                );
            }
        }
    } else if frame.num == syscall::SYS_KILL {
        if let Some(i) = process::position(s.procs, frame.arg0) {
            if s.procs[i].state is Running {
                assert(roots.contains(s.procs[i].page_table));
                spaces::law_sound_spaces_are_usable(
                    s.mem,
                    s.pool,
                    roots,
                    e0,
                    s.procs[i].page_table,
                );
            }
        }
    }
}

proof fn lemma_fork(
    s: KernelState,
    frame: SyscallFrame,
    s2: KernelState,
    out: Outcome,
    roots: Set<u64>,
    e0: u64,
)
    requires
        frame.num == syscall::SYS_FORK,
        syscall::forked(s, frame, s2, out),
        spaces::sound(s.mem, s.pool, roots, e0),
        accounted(s, roots),
        proper(s, frame, roots, e0),
    ensures
        spaces::sound(s2.mem, s2.pool, spaces_after(s, frame, s2, out, roots), e0),
        accounted(s2, spaces_after(s, frame, s2, out, roots)),
{
    lemma_found(s.procs, s.current_pid);
    match process::position(s.procs, s.current_pid) {
        None => {},
        Some(i) => {
            let src = s.procs[i].page_table;
            assert(roots.contains(src));
            assert(spaces::space_ok(s.mem, s.pool, src, e0));
            if s2.procs.len() > s.procs.len() {
                let root = s2.procs.last().page_table;
                spaces::lemma_copy_plain(s.mem, src, s2.mem, root, 3, 1);
                assert(s2.mem[root][0] == s.mem[src][0]);
                spaces::lemma_join(s.mem, s.pool, s2.mem, s2.pool, roots, e0, root);
                assert(!roots.contains(root)) by {
                    if roots.contains(root) {
                        assert(spaces::space_ok(s.mem, s.pool, root, e0));
                        assert(mmu::owns(s.mem, root, 3, 1, root));
                    }
                }
            } else {
                spaces::law_taking_frames_is_harmless(
                    s.mem,
                    s.pool,
                    s2.mem,
                    s2.pool,
                    roots,
                    e0,
                );
            }
        },
    }
}

proof fn lemma_exec(
    s: KernelState,
    frame: SyscallFrame,
    s2: KernelState,
    out: Outcome,
    roots: Set<u64>,
    e0: u64,
)
    requires
        frame.num == syscall::SYS_EXECVE,
        syscall::execed(s, frame, s2, out),
        spaces::sound(s.mem, s.pool, roots, e0),
        elf::frames_ok(s.pool),
        accounted(s, roots),
        exec_spares(s, frame, roots, e0),
    ensures
        spaces::sound(s2.mem, s2.pool, spaces_after(s, frame, s2, out, roots), e0),
        accounted(s2, spaces_after(s, frame, s2, out, roots)),
{
    lemma_found(s.procs, s.current_pid);
    if let Some(name) = user::name_from(s.mem, s.cr3, frame.arg0 as int, Seq::empty()) {
        let text = vstd::utf8::decode_utf8(name);
        if vstd::utf8::valid_utf8(name) && s.files.contains_key(text) {
            spaces::law_loading_keeps_spaces_sound(
                s.mem,
                s.pool,
                roots,
                e0,
                s.cr3,
                s.files[text],
                syscall::USER_STACK_VIRT,
            );
        }
    }
}

/// Storing a number spares every frame that it has no byte in.
proof fn lemma_stored(m: Frames, root: u64, v: int, value: i32, keep: spec_fn(u64) -> bool)
    requires
        user::store_i32(m, root, v, value) is Some,
        forall|i: int|
            0 <= i < 4 ==> (#[trigger] user::place(m, root, v + i) matches Some((f, _)) ==> !keep(
                f,
            )),
    ensures
        user::store_i32(m, root, v, value)->0.dom() == m.dom(),
        forall|g: u64| keep(g) ==> #[trigger] user::store_i32(m, root, v, value)->0[g] == m[g],
{
    let m2 = user::store_i32(m, root, v, value)->0;
    assert(v + 0 == v);
    assert(user::place(m, root, v + 0) is Some);
    assert(user::place(m, root, v + 1) is Some);
    assert(user::place(m, root, v + 2) is Some);
    assert(user::place(m, root, v + 3) is Some);
    assert(m2.dom() =~= m.dom());
}

proof fn lemma_wait(
    s: KernelState,
    frame: SyscallFrame,
    s2: KernelState,
    out: Outcome,
    roots: Set<u64>,
    e0: u64,
)
    requires
        frame.num == syscall::SYS_WAIT,
        syscall::waited(s, frame, s2, out),
        spaces::sound(s.mem, s.pool, roots, e0),
        accounted(s, roots),
        proper(s, frame, roots, e0),
    ensures
        spaces::sound(s2.mem, s2.pool, spaces_after(s, frame, s2, out, roots), e0),
        accounted(s2, spaces_after(s, frame, s2, out, roots)),
{
    if process::parent_of_any(s.procs, s.current_pid) {
        if let Some(i) = process::zombie_child(s.procs, s.current_pid) {
            assert(process::is_first_zombie(s.procs, s.current_pid, i));
            let root = s.procs[i].page_table;
            let kept = s.procs[i].space_released;
            let (pool, rest) = if kept {
                (s.pool, roots)
            } else {
                (syscall::released(s.mem, s.pool, root), roots.remove(root))
            };
            if !kept {
                assert(roots.contains(root));
                spaces::law_releasing_one_spares_the_others(s.mem, s.pool, pool, roots, e0, root);
            }
            let v = frame.arg0 as int;
            let code = s.procs[i].state->Zombie_0;
            if frame.arg0 != 0 && user::store_i32(s.mem, s.cr3, v, code) is Some {
                let keep = |f: u64|
                    mmu::in_tree(s.mem, spaces::kernel_table(e0), 2, f) || exists|r: u64| #[trigger]
                        roots.contains(r) && mmu::in_tree(s.mem, r, 3, f);
                lemma_stored(s.mem, s.cr3, v, code, keep);
                assert forall|r: u64, f: u64|
                    #![trigger rest.contains(r), mmu::in_tree(s.mem, r, 3, f)]
                    rest.contains(r) && mmu::in_tree(s.mem, r, 3, f) implies s2.mem[f]
                    == s.mem[f] by {
                    assert(roots.contains(r));
                    assert(keep(f));
                }
                assert forall|f: u64| #[trigger]
                    mmu::in_tree(s.mem, spaces::kernel_table(e0), 2, f) implies s2.mem[f]
                    == s.mem[f] by {
                    assert(keep(f));
                }
                spaces::lemma_tables_spared(s.mem, pool, s2.mem, pool, rest, e0);
            }
            assert(s2.procs == s.procs.remove(i));
            assert forall|j: int|
                0 <= j < s2.procs.len() && !(#[trigger] s2.procs[j]).space_released implies rest.contains(
                s2.procs[j].page_table,
            ) by {
                let k = if j < i {
                    j
                } else {
                    j + 1
                };
                assert(s2.procs[j] == s.procs[k]);
                if kept {
                } else if k < i {
                    assert(s.procs[k].page_table != s.procs[i].page_table);
                } else {
                    assert(s.procs[i].page_table != s.procs[k].page_table);
                }
            }
        }
    }
}

proof fn lemma_kill(
    s: KernelState,
    frame: SyscallFrame,
    s2: KernelState,
    out: Outcome,
    roots: Set<u64>,
    e0: u64,
)
    requires
        frame.num == syscall::SYS_KILL,
        syscall::killed(s, frame, s2, out),
        spaces::sound(s.mem, s.pool, roots, e0),
        accounted(s, roots),
        proper(s, frame, roots, e0),
    ensures
        spaces::sound(s2.mem, s2.pool, spaces_after(s, frame, s2, out, roots), e0),
        accounted(s2, spaces_after(s, frame, s2, out, roots)),
{
    lemma_found(s.procs, frame.arg0);
    if let Some(i) = process::position(s.procs, frame.arg0) {
        let root = s.procs[i].page_table;
        if out == Outcome::Return(0) {
            assert(s.procs[i].state is Running);
            assert(roots.contains(root));
            spaces::law_releasing_one_spares_the_others(
                s.mem,
                s.pool,
                s2.pool,
                roots,
                e0,
                root,
            );
            assert forall|j: int|
                0 <= j < s2.procs.len() && !(#[trigger] s2.procs[j]).space_released implies roots.remove(root).contains(s2.procs[j].page_table) by {
                assert(j != i);
                assert(s2.procs[j] == s.procs[j]);
                if j < i {
                    assert(s.procs[j].page_table != s.procs[i].page_table);
                } else {
                    assert(s.procs[i].page_table != s.procs[j].page_table);
                }
            }
        }
    }
}

/// Every proper call keeps all address spaces in order and accounted for: none
/// ever owns a frame that is free, that the kernel keeps its tables in, or that
/// another one owns. A program that starts must not be written over page tables.
pub proof fn law_calls_keep_spaces_sound(
    s: KernelState,
    frame: SyscallFrame,
    s2: KernelState,
    out: Outcome,
    roots: Set<u64>,
    e0: u64,
)
    requires
        syscall::dispatched(s, frame, s2, out),
        spaces::sound(s.mem, s.pool, roots, e0),
        elf::frames_ok(s.pool),
        accounted(s, roots),
        proper(s, frame, roots, e0),
        frame.num == syscall::SYS_EXECVE && caps::within(caps::CAP_EXEC, s.caps) ==> exec_spares(
            s,
            frame,
            roots,
            e0,
        ),
    ensures
        spaces::sound(s2.mem, s2.pool, spaces_after(s, frame, s2, out, roots), e0),
        accounted(s2, spaces_after(s, frame, s2, out, roots)),
{
    let can_exec = caps::within(caps::CAP_EXEC, s.caps);
    if frame.num == syscall::SYS_FORK && can_exec {
        lemma_fork(s, frame, s2, out, roots, e0);
    } else if frame.num == syscall::SYS_EXECVE && can_exec {
        lemma_exec(s, frame, s2, out, roots, e0);
    } else if frame.num == syscall::SYS_WAIT {
        lemma_wait(s, frame, s2, out, roots, e0);
    } else if frame.num == syscall::SYS_KILL {
        lemma_kill(s, frame, s2, out, roots, e0);
    } else {
        lemma_found(s.procs, s.current_pid);
    }
}

/// Starting a program as a new process keeps all address spaces in order and
/// accounted for, as long as it is not written over page tables.
pub proof fn law_launch_keeps_spaces_sound(
    s: KernelState,
    image: Seq<u8>,
    stack_virt: u64,
    entry: u64,
    stack_top: u64,
    parent: u64,
    roots: Set<u64>,
    e0: u64,
)
    requires
        spaces::sound(s.mem, s.pool, roots, e0),
        elf::frames_ok(s.pool),
        accounted(s, roots),
        s.next_pid < u64::MAX,
        spaces::image_spares(s.mem, s.pool, roots, e0, s.cr3, image),
        elf::prepared(s.mem, s.pool, s.cr3, image, stack_virt).2 is Ok,
    ensures
        ({
            let (m2, p2, _) = elf::prepared(s.mem, s.pool, s.cr3, image, stack_virt);
            let root = pmm::lowest_frame(s.pool);
            let s1 = KernelState { mem: m2, pool: p2, ..s };
            let s2 = syscall::launched(s1, entry, stack_top, root, parent);
            &&& spaces::sound(s2.mem, s2.pool, roots.insert(root), e0)
            &&& accounted(s2, roots.insert(root))
        }),
{
    spaces::law_loading_keeps_spaces_sound(s.mem, s.pool, roots, e0, s.cr3, image, stack_virt);
}

} // verus!
