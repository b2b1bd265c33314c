//! The process table: identity, parent, address space and state of each
//! process.
use vstd::prelude::*;
use crate::mem::PhysMemory;
use crate::mmu;
use crate::pmm::{self, FrameBitmap};

verus! {

#[derive(Clone, Copy, PartialEq, Eq, Debug, Structural)]
pub enum ProcessState {
    Running,
    /// Terminated with this code, until its parent collects it.
    Zombie(i32),
}

#[derive(Clone, Copy)]
pub struct Pcb {
    pub pid: u64,
    pub parent_pid: u64,
    /// Physical address of the root of the address space.
    pub page_table: u64,
    pub state: ProcessState,
    /// Whether its address space was released before it was collected.
    pub space_released: bool,
}

/// A running process.
pub open spec fn running(pid: u64, parent_pid: u64, page_table: u64) -> Pcb {
    Pcb { pid, parent_pid, page_table, state: ProcessState::Running, space_released: false }
}

/// The registered processes in order of registration, the next PID, and the
/// PID of the running process (0 while only the kernel runs).
pub struct ProcessTable {
    pub procs: Vec<Pcb>,
    pub next_pid: u64,
    pub current_pid: u64,
}

/// Whether entry `i` is the first one with this PID.
pub open spec fn is_first(s: Seq<Pcb>, pid: u64, i: int) -> bool {
    &&& 0 <= i < s.len()
    &&& s[i].pid == pid
    &&& forall|j: int| 0 <= j < i ==> (#[trigger] s[j]).pid != pid
}

/// The index of the first entry with this PID.
pub open spec fn position(s: Seq<Pcb>, pid: u64) -> Option<int> {
    if exists|i: int| is_first(s, pid, i) {
        Some(choose|i: int| is_first(s, pid, i))
    } else {
        None
    }
}

/// The first entry with this PID.
pub open spec fn lookup(s: Seq<Pcb>, pid: u64) -> Option<Pcb> {
    match position(s, pid) {
        Some(i) => Some(s[i]),
        None => None,
    }
}

/// Whether entry `i` is the first zombie child of `parent`.
pub open spec fn is_first_zombie(s: Seq<Pcb>, parent: u64, i: int) -> bool {
    &&& 0 <= i < s.len()
    &&& s[i].parent_pid == parent
    &&& s[i].state is Zombie
    &&& forall|j: int|
        0 <= j < i ==> (#[trigger] s[j]).parent_pid != parent || s[j].state is Running
}

/// The index of the first zombie child of `parent`.
pub open spec fn zombie_child(s: Seq<Pcb>, parent: u64) -> Option<int> {
    if exists|i: int| is_first_zombie(s, parent, i) {
        Some(choose|i: int| is_first_zombie(s, parent, i))
    } else {
        None
    }
}

/// Whether `parent` has a child in the table, alive or not.
pub open spec fn parent_of_any(s: Seq<Pcb>, parent: u64) -> bool {
    exists|i: int| 0 <= i < s.len() && (#[trigger] s[i]).parent_pid == parent
}

pub proof fn lemma_position(s: Seq<Pcb>, pid: u64, i: int)
    requires
        is_first(s, pid, i),
    ensures
        position(s, pid) == Some(i),
{
    let k = choose|k: int| is_first(s, pid, k);
    assert(is_first(s, pid, k));
    assert(k == i) by {
        if k < i {
            assert(s[k].pid != pid);
        } else if i < k {
            assert(s[i].pid != pid);
        }
    }
}

impl ProcessTable {
    pub fn new() -> (r: ProcessTable)
        ensures
            r.procs@ == Seq::<Pcb>::empty(),
            r.next_pid == 1,
            r.current_pid == 0,
    {
        ProcessTable { procs: Vec::new(), next_pid: 1, current_pid: 0 }
    }

    fn index_of(&self, pid: u64) -> (r: Option<usize>)
        ensures
            match r {
                Some(i) => position(self.procs@, pid) == Some(i as int) && i < self.procs@.len(),
                None => position(self.procs@, pid) is None,
            },
    {
        let mut i: usize = 0;
        while i < self.procs.len()
            invariant
                i <= self.procs@.len(),
                forall|j: int| 0 <= j < i ==> (#[trigger] self.procs@[j]).pid != pid,
            decreases self.procs@.len() - i,
        {
            if self.procs[i].pid == pid {
                proof {
                    assert(is_first(self.procs@, pid, i as int));
                    lemma_position(self.procs@, pid, i as int);
                }
                return Some(i);
            }
            i += 1;
        }
        None
    }
}

/// The PID for a new process: each call gives the next number.
pub fn alloc_pid(table: &mut ProcessTable) -> (r: u64)
    ensures
        r == old(table).next_pid,
        final(table).next_pid == (if r == u64::MAX {
            0
        } else {
            (r + 1) as u64
        }),
        final(table).procs@ == old(table).procs@,
        final(table).current_pid == old(table).current_pid,
{
    let pid = table.next_pid;
    table.next_pid = pid.wrapping_add(1);
    pid
}

pub fn current_pid(table: &ProcessTable) -> (r: u64)
    ensures
        r == table.current_pid,
{
    table.current_pid
}

pub fn set_current_pid(table: &mut ProcessTable, pid: u64)
    ensures
        *final(table) == (ProcessTable { current_pid: pid, ..*old(table) }),
{
    table.current_pid = pid;
}

/// Adds a running process to the table.
pub fn register(table: &mut ProcessTable, pid: u64, parent_pid: u64, page_table: u64)
    ensures
        final(table).procs@ == old(table).procs@.push(
            running(pid, parent_pid, page_table),
        ),
        final(table).next_pid == old(table).next_pid,
        final(table).current_pid == old(table).current_pid,
{
    table.procs.push(
        Pcb { pid, parent_pid, page_table, state: ProcessState::Running, space_released: false },
    );
}

pub fn find(table: &ProcessTable, pid: u64) -> (r: Option<Pcb>)
    ensures
        r == lookup(table.procs@, pid),
{
    match table.index_of(pid) {
        Some(i) => Some(table.procs[i]),
        None => None,
    }
}

/// Gives a process another address space, as `execve` does. `false` if there
/// is no such process.
pub fn set_page_table(table: &mut ProcessTable, pid: u64, page_table: u64) -> (r: bool)
    ensures
        r == (position(old(table).procs@, pid) is Some),
        final(table).procs@ == match position(old(table).procs@, pid) {
            Some(i) => old(table).procs@.update(
                i,
                Pcb { page_table, ..old(table).procs@[i] },
            ),
            None => old(table).procs@,
        },
        final(table).next_pid == old(table).next_pid,
        final(table).current_pid == old(table).current_pid,
{
    match table.index_of(pid) {
        Some(i) => {
            let p = table.procs[i];
            table.procs.set(i, Pcb { page_table, ..p });
            true
        },
        None => false,
    }
}

/// Marks a process as terminated with this code. `false` if there is no such
/// process.
pub fn mark_zombie(table: &mut ProcessTable, pid: u64, exit_code: i32) -> (r: bool)
    ensures
        r == (position(old(table).procs@, pid) is Some),
        final(table).procs@ == match position(old(table).procs@, pid) {
            Some(i) => old(table).procs@.update(
                i,
                Pcb { state: ProcessState::Zombie(exit_code), ..old(table).procs@[i] },
            ),
            None => old(table).procs@,
        },
        final(table).next_pid == old(table).next_pid,
        final(table).current_pid == old(table).current_pid,
{
    match table.index_of(pid) {
        Some(i) => {
            let p = table.procs[i];
            table.procs.set(i, Pcb { state: ProcessState::Zombie(exit_code), ..p });
            true
        },
        None => false,
    }
}

/// Marks a process as terminated with this code and its address space as
/// released. `false` if there is no such process.
pub fn mark_zombie_released(table: &mut ProcessTable, pid: u64, exit_code: i32) -> (r: bool)
    ensures
        r == (position(old(table).procs@, pid) is Some),
        final(table).procs@ == match position(old(table).procs@, pid) {
            Some(i) => old(table).procs@.update(
                i,
                Pcb {
                    state: ProcessState::Zombie(exit_code),
                    space_released: true,
                    ..old(table).procs@[i]
                },
            ),
            None => old(table).procs@,
        },
        final(table).next_pid == old(table).next_pid,
        final(table).current_pid == old(table).current_pid,
{
    match table.index_of(pid) {
        Some(i) => {
            let p = table.procs[i];
            table.procs.set(
                i,
                Pcb { state: ProcessState::Zombie(exit_code), space_released: true, ..p },
            );
            true
        },
        None => false,
    }
}

/// All processes, in the order of their registration.
pub fn list(table: &ProcessTable) -> (r: Vec<Pcb>)
    ensures
        r@ == table.procs@,
{
    let mut out: Vec<Pcb> = Vec::new();
    let mut i: usize = 0;
    while i < table.procs.len()
        invariant
            i <= table.procs@.len(),
            out@ == table.procs@.take(i as int),
        decreases table.procs@.len() - i,
    {
        out.push(table.procs[i]);
        i += 1;
    }
    out
}

/// Whether `parent_pid` has a child at all: `wait` tells from this "nothing to
/// wait for" and "no child has finished yet" apart.
pub fn has_children(table: &ProcessTable, parent_pid: u64) -> (r: bool)
    ensures
        r == parent_of_any(table.procs@, parent_pid),
{
    let mut i: usize = 0;
    while i < table.procs.len()
        invariant
            i <= table.procs@.len(),
            forall|j: int| 0 <= j < i ==> (#[trigger] table.procs@[j]).parent_pid != parent_pid,
        decreases table.procs@.len() - i,
    {
        if table.procs[i].parent_pid == parent_pid {
            return true;
        }
        i += 1;
    }
    false
}

/// The index of the first zombie child of `parent`.
pub fn first_zombie(table: &ProcessTable, parent: u64) -> (r: Option<usize>)
    ensures
        match zombie_child(table.procs@, parent) {
            Some(i) => (r matches Some(n) && n == i) && is_first_zombie(table.procs@, parent, i),
            None => r is None,
        },
{
    let ghost s = table.procs@;
    let mut i: usize = 0;
    while i < table.procs.len()
        invariant
            i <= s.len(),
            s == table.procs@,
            forall|j: int|
                0 <= j < i ==> (#[trigger] s[j]).parent_pid != parent || s[j].state is Running,
        decreases s.len() - i,
    {
        let p = table.procs[i];
        if p.parent_pid == parent {
            if let ProcessState::Zombie(_) = p.state {
                proof {
                    assert(is_first_zombie(s, parent, i as int));
                    let k = choose|k: int| is_first_zombie(s, parent, k);
                    assert(is_first_zombie(s, parent, k));
                    assert(k == i) by {
                        if k < i {
                            assert(s[k].parent_pid == parent);
                        } else if i < k {
                            assert(s[i as int].parent_pid == parent);
                        }
                    }
                }
                return Some(i);
            }
        }
        i += 1;
    }
    None
}

/// Removes the first zombie child of `parent_pid` from the table and releases
/// its address space, unless that happened when it was terminated: its frames
/// may have other owners by now. Gives its PID and exit code. `None` if no child
/// is a zombie.
pub fn reap_zombie(
    table: &mut ProcessTable,
    mem: &PhysMemory,
    pmm: &mut FrameBitmap,
    parent_pid: u64,
) -> (r: Option<(u64, i32)>)
    requires
        mem.wf(),
        old(pmm).wf(),
        zombie_child(old(table).procs@, parent_pid) matches Some(i) ==> {
            old(table).procs@[i].space_released || mmu::wf_tree(
                mem@,
                old(table).procs@[i].page_table,
                3,
            )
        },
    ensures
        final(pmm).wf(),
        final(table).next_pid == old(table).next_pid,
        final(table).current_pid == old(table).current_pid,
        match zombie_child(old(table).procs@, parent_pid) {
            Some(i) => {
                let child = old(table).procs@[i];
                &&& r == Some((child.pid, child.state->Zombie_0))
                &&& final(table).procs@ == old(table).procs@.remove(i)
                &&& forall|g: u64| #[trigger]
                    final(pmm)@.contains(g) <==> old(pmm)@.contains(g) || (!child.space_released
                        && g < pmm::MANAGED_BYTES && mmu::owns(mem@, child.page_table, 3, 1, g))
            },
            None => {
                &&& r is None
                &&& final(table).procs@ == old(table).procs@
                &&& final(pmm)@ == old(pmm)@
            },
        },
{
    match first_zombie(table, parent_pid) {
        Some(i) => {
            let p = table.procs[i];
            table.procs.remove(i);
            if !p.space_released {
                mmu::free_address_space(mem, pmm, p.page_table);
            }
            match p.state {
                ProcessState::Zombie(code) => Some((p.pid, code)),
                ProcessState::Running => None,
            }
        },
        None => None,
    }
}

/// The first zombie among the children of a process is the one that is found,
/// and without one none is.
pub proof fn law_first_zombie_is_found(s: Seq<Pcb>, parent: u64)
    ensures
        forall|i: int|
            0 <= i < s.len() && (#[trigger] s[i]).parent_pid == parent && s[i].state is Zombie && (
            forall|j: int|
                0 <= j < i ==> (#[trigger] s[j]).parent_pid != parent || s[j].state is Running)
                ==> zombie_child(s, parent) == Some(i),
        (forall|j: int|
            0 <= j < s.len() ==> (#[trigger] s[j]).parent_pid != parent || s[j].state is Running)
            ==> zombie_child(s, parent) is None,
{
    assert forall|i: int|
        0 <= i < s.len() && (#[trigger] s[i]).parent_pid == parent && s[i].state is Zombie && (forall|
            j: int,
        |
            0 <= j < i ==> (#[trigger] s[j]).parent_pid != parent || s[j].state is Running)
        implies zombie_child(s, parent) == Some(i) by {
        assert(is_first_zombie(s, parent, i));
        let k = choose|k: int| is_first_zombie(s, parent, k);
        assert(is_first_zombie(s, parent, k));
        assert(k == i) by {
            if k < i {
                assert(s[k].parent_pid == parent);
            } else if i < k {
                assert(s[i].parent_pid == parent);
            }
        }
    }
}

/// The first entry with a PID is the one that is found, and without one none is.
pub proof fn law_first_entry_is_found(s: Seq<Pcb>, pid: u64, i: int)
    ensures
        0 <= i < s.len() && s[i].pid == pid && (forall|j: int|
            0 <= j < i ==> (#[trigger] s[j]).pid != pid) ==> lookup(s, pid) == Some(s[i])
            && position(s, pid) == Some(i),
        (forall|j: int| 0 <= j < s.len() ==> (#[trigger] s[j]).pid != pid) ==> lookup(s, pid) is None,
{
    if 0 <= i < s.len() && s[i].pid == pid && (forall|j: int|
        0 <= j < i ==> (#[trigger] s[j]).pid != pid) {
        assert(is_first(s, pid, i));
        lemma_position(s, pid, i);
    }
}

} // verus!
