//! Checks of page tables while the kernel runs: whether they are as the
//! operations on address spaces need them. Whoever hands the kernel a call or a
//! line asks here first.
use vstd::prelude::*;
use crate::caps;
use crate::console;
use crate::elf;
use crate::mem::PhysMemory;
use crate::mmu::{self, Frames};
use crate::pmm::{self, FrameBitmap};
use crate::process::{self, ProcessState};
use crate::syscall::{self, Kernel, SyscallFrame};
use crate::text;
use crate::user;
use crate::vfs;

verus! {

/// Whether a tree of tables is well formed and has none of the tables `seen`.
spec fn fresh_tree(m: Frames, table: u64, level: nat, seen: Seq<u64>) -> bool {
    &&& mmu::wf_tree(m, table, level)
    &&& forall|f: u64| #[trigger] mmu::in_tree(m, table, level, f) ==> !seen.contains(f)
}

/// Whether `f` is a table below one of the entries before `n`.
spec fn below(m: Frames, table: u64, level: nat, n: int, f: u64) -> bool {
    exists|j: int|
        0 <= j < n && mmu::links(#[trigger] m[table][j]) && mmu::in_tree(
            m,
            mmu::addr_of(m[table][j]),
            (level - 1) as nat,
            f,
        )
}

/// What [`fresh_tree`] asks of the entries before `n`.
spec fn entries_fresh(m: Frames, table: u64, level: nat, seen: Seq<u64>, n: int) -> bool {
    let l1 = (level - 1) as nat;
    &&& forall|j: int|
        0 <= j < n && mmu::links(#[trigger] m[table][j]) ==> mmu::wf_tree(
            m,
            mmu::addr_of(m[table][j]),
            l1,
        ) && !mmu::in_tree(m, mmu::addr_of(m[table][j]), l1, table)
    &&& forall|j: int, f: u64|
        #![trigger mmu::in_tree(m, mmu::addr_of(m[table][j]), l1, f)]
        0 <= j < n && mmu::links(m[table][j]) && mmu::in_tree(m, mmu::addr_of(m[table][j]), l1, f)
            ==> !seen.contains(f)
    &&& forall|j: int, k: int, f: u64|
        #![trigger mmu::in_tree(m, mmu::addr_of(m[table][j]), l1, f), mmu::in_tree(m, mmu::addr_of(m[table][k]), l1, f)]
        0 <= j < n && 0 <= k < n && j != k && mmu::links(m[table][j]) && mmu::links(m[table][k])
            && mmu::in_tree(m, mmu::addr_of(m[table][j]), l1, f) ==> !mmu::in_tree(
            m,
            mmu::addr_of(m[table][k]),
            l1,
            f,
        )
    &&& forall|j: int|
        0 <= j < n && mmu::present(#[trigger] m[table][j]) && mmu::huge(m[table][j]) ==> level < 3
            && mmu::addr_of(m[table][j]) as int % mmu::span(level) == 0
}

fn listed(v: &Vec<u64>, x: u64) -> (r: bool)
    ensures
        r == v@.contains(x),
{
    let mut i: usize = 0;
    while i < v.len()
        invariant
            i <= v@.len(),
            forall|j: int| 0 <= j < i ==> v@[j] != x,
        decreases v@.len() - i,
    {
        if v[i] == x {
            return true;
        }
        i += 1;
    }
    false
}

/// One more entry leads to a tree that has none of the tables so far.
proof fn lemma_one_more(
    m: Frames,
    table: u64,
    level: nat,
    seen0: Seq<u64>,
    seen: Seq<u64>,
    i: int,
)
    requires
        level > 0,
        0 <= i < 512,
        mmu::links(m[table][i]),
        entries_fresh(m, table, level, seen0, i),
        forall|f: u64| #[trigger]
            seen.contains(f) <==> seen0.contains(f) || f == table || below(m, table, level, i, f),
    ensures
        fresh_tree(m, mmu::addr_of(m[table][i]), (level - 1) as nat, seen) ==> entries_fresh(
            m,
            table,
            level,
            seen0,
            i + 1,
        ),
        !fresh_tree(m, mmu::addr_of(m[table][i]), (level - 1) as nat, seen) ==> !fresh_tree(
            m,
            table,
            level,
            seen0,
        ),
{
    let l1 = (level - 1) as nat;
    let c = mmu::addr_of(m[table][i]);
    if fresh_tree(m, c, l1, seen) {
        assert forall|j: int, k: int, f: u64|
            #![trigger mmu::in_tree(m, mmu::addr_of(m[table][j]), l1, f), mmu::in_tree(m, mmu::addr_of(m[table][k]), l1, f)]
            0 <= j < i + 1 && 0 <= k < i + 1 && j != k && mmu::links(m[table][j]) && mmu::links(
                m[table][k],
            ) && mmu::in_tree(m, mmu::addr_of(m[table][j]), l1, f) implies !mmu::in_tree(
            m,
            mmu::addr_of(m[table][k]),
            l1,
            f,
        ) by {
            if j == i && mmu::in_tree(m, mmu::addr_of(m[table][k]), l1, f) {
                assert(below(m, table, level, i, f));
            } else if k == i {
                assert(below(m, table, level, i, f));
            }
        }
        assert(seen.contains(table));
    } else if fresh_tree(m, table, level, seen0) {
        assert(mmu::wf_tree(m, c, l1));
        let f = choose|f: u64| #[trigger] mmu::in_tree(m, c, l1, f) && seen.contains(f);
        assert(mmu::in_tree(m, table, level, f));
        if below(m, table, level, i, f) {
            let j = choose|j: int|
                0 <= j < i && mmu::links(#[trigger] m[table][j]) && mmu::in_tree(
                    m,
                    mmu::addr_of(m[table][j]),
                    l1,
                    f,
                );
            assert(mmu::in_tree(m, mmu::addr_of(m[table][j]), l1, f));
        }
    }
}

/// Checks a tree of tables, and notes the tables that it has.
fn check_tree(mem: &PhysMemory, table: u64, level: u8, seen: &mut Vec<u64>) -> (r: bool)
    requires
        mem.wf(),
        level <= 3,
    ensures
        r == fresh_tree(mem@, table, level as nat, old(seen)@),
        r ==> forall|f: u64| #[trigger]
            final(seen)@.contains(f) <==> old(seen)@.contains(f) || mmu::in_tree(
                mem@,
                table,
                level as nat,
                f,
            ),
    decreases level,
{
    broadcast use PhysMemory::lemma_frame;

    let ghost m = mem@;
    let ghost seen0 = seen@;
    assert(mmu::in_tree(m, table, level as nat, table));
    if !mem.contains(table) || listed(seen, table) {
        return false;
    }
    seen.push(table);
    proof {
        assert forall|f: u64| #[trigger] seen@.contains(f) <==> seen0.contains(f) || f == table by {
            if seen0.contains(f) {
                let i = choose|i: int| 0 <= i < seen0.len() && seen0[i] == f;
                assert(seen@[i] == f);
            }
            assert(seen@[seen0.len() as int] == table);
        }
    }
    if level == 0 {
        return true;
    }
    let mut i: usize = 0;
    while i < 512
        invariant
            i <= 512,
            0 < level <= 3,
            mem.wf(),
            m == mem@,
            m.contains_key(table),
            m[table].len() == 512,
            seen0 == old(seen)@,
            !seen0.contains(table),
            entries_fresh(m, table, level as nat, seen0, i as int),
            forall|f: u64| #[trigger]
                seen@.contains(f) <==> seen0.contains(f) || f == table || below(
                    m,
                    table,
                    level as nat,
                    i as int,
                    f,
                ),
        decreases 512 - i,
    {
        let e = mem.read(table, i);
        let ghost before = seen@;
        if e & mmu::PAGE_PRESENT != 0 {
            if e & mmu::PAGE_HUGE != 0 {
                let addr = e & mmu::ADDR_MASK;
                let aligned = if level == 1 {
                    addr % 0x20_0000 == 0
                } else {
                    addr % 0x4000_0000 == 0
                };
                if level >= 3 || !aligned {
                    assert(mmu::present(m[table][i as int]) && mmu::huge(m[table][i as int]));
                    return false;
                }
            } else {
                proof {
                    lemma_one_more(m, table, level as nat, seen0, before, i as int);
                }
                if !check_tree(mem, e & mmu::ADDR_MASK, level - 1, seen) {
                    return false;
                }
            }
        }
        proof {
            assert forall|f: u64| #[trigger] seen@.contains(f) <==> seen0.contains(f) || f == table
                || below(m, table, level as nat, i + 1, f) by {
                assert(below(m, table, level as nat, i + 1, f) <==> below(
                    m,
                    table,
                    level as nat,
                    i as int,
                    f,
                ) || (mmu::links(m[table][i as int]) && mmu::in_tree(
                    m,
                    mmu::addr_of(m[table][i as int]),
                    (level - 1) as nat,
                    f,
                ))) by {
                    if below(m, table, level as nat, i as int, f) {
                        let j = choose|j: int|
                            0 <= j < i && mmu::links(#[trigger] m[table][j]) && mmu::in_tree(
                                m,
                                mmu::addr_of(m[table][j]),
                                (level - 1) as nat,
                                f,
                            );
                        assert(mmu::links(m[table][j]));
                    }
                }
                assert(before.contains(f) <==> seen0.contains(f) || f == table || below(
                    m,
                    table,
                    level as nat,
                    i as int,
                    f,
                ));
            }
        }
        i += 1;
    }
    proof {
        assert forall|f: u64| #[trigger] mmu::in_tree(m, table, level as nat, f) <==> f == table
            || below(m, table, level as nat, 512, f) by {}
        assert forall|f: u64| #[trigger] mmu::in_tree(m, table, level as nat, f) implies
            !seen0.contains(f) by {
            if f != table {
                let j = choose|j: int|
                    0 <= j < 512 && mmu::links(#[trigger] m[table][j]) && mmu::in_tree(
                        m,
                        mmu::addr_of(m[table][j]),
                        (level - 1) as nat,
                        f,
                    );
                assert(mmu::in_tree(m, mmu::addr_of(m[table][j]), (level - 1) as nat, f));
            }
        }
        assert(mmu::wf_tree(m, table, level as nat));
    }
    true
}

/// Whether the tables of an address space are well formed.
pub fn tables_ok(mem: &PhysMemory, root: u64) -> (r: bool)
    requires
        mem.wf(),
    ensures
        r == mmu::wf_tree(mem@, root, 3),
{
    let mut seen: Vec<u64> = Vec::new();
    check_tree(mem, root, 3, &mut seen)
}

/// Whether all free frames are in memory.
pub fn frames_in_memory(mem: &PhysMemory, pmm: &FrameBitmap) -> (r: bool)
    requires
        mem.wf(),
        pmm.wf(),
    ensures
        r == forall|a: u64| #[trigger] pmm@.contains(a) ==> mem@.contains_key(a),
{
    let mut a: u64 = 0;
    while a < pmm::MANAGED_BYTES
        invariant
            a <= pmm::MANAGED_BYTES,
            a % 4096 == 0,
            pmm::MANAGED_BYTES % 4096 == 0,
            mem.wf(),
            pmm.wf(),
            forall|b: u64| b < a && #[trigger] pmm@.contains(b) ==> mem@.contains_key(b),
        decreases pmm::MANAGED_BYTES - a,
    {
        if pmm.is_free(a) && !mem.contains(a) {
            assert(pmm@.contains(a));
            return false;
        }
        assert forall|b: u64| b < a + 4096 && #[trigger] pmm@.contains(b) implies mem@.contains_key(
            b,
        ) by {
            pmm.lemma_frame_range(b);
            assert(b <= a);
        }
        a += 4096;
    }
    assert forall|b: u64| #[trigger] pmm@.contains(b) implies mem@.contains_key(b) by {
        pmm.lemma_frame_range(b);
    }
    true
}

/// Whether an address space can be filled: its tables are well formed, and the
/// free frames are in memory and none of these.
pub fn can_fill(mem: &PhysMemory, pmm: &FrameBitmap, root: u64) -> (r: bool)
    requires
        mem.wf(),
        pmm.wf(),
    ensures
        r == elf::fillable(mem@, pmm@, root),
{
    let mut seen: Vec<u64> = Vec::new();
    if !check_tree(mem, root, 3, &mut seen) || !frames_in_memory(mem, pmm) {
        return false;
    }
    let mut i: usize = 0;
    while i < seen.len()
        invariant
            i <= seen@.len(),
            pmm.wf(),
            forall|f: u64| #[trigger] seen@.contains(f) <==> mmu::in_tree(mem@, root, 3, f),
            forall|j: int| 0 <= j < i ==> !pmm@.contains(#[trigger] seen@[j]),
        decreases seen@.len() - i,
    {
        if pmm.is_free(seen[i]) {
            assert(seen@.contains(seen@[i as int]));
            assert(pmm@.contains(seen@[i as int]));
            return false;
        }
        i += 1;
    }
    assert forall|a: u64| #[trigger] pmm@.contains(a) implies !mmu::in_tree(mem@, root, 3, a) by {
        if mmu::in_tree(mem@, root, 3, a) {
            assert(seen@.contains(a));
            let j = choose|j: int| 0 <= j < seen@.len() && seen@[j] == a;
            assert(!pmm@.contains(seen@[j]));
        }
    }
    true
}

/// Whether frame `f` is in memory and not free.
spec fn in_use(m: Frames, pool: Set<u64>, f: u64) -> bool {
    m.contains_key(f) && !pool.contains(f)
}

/// Checks that what a table owns is in use.
fn check_owned(mem: &PhysMemory, pmm: &FrameBitmap, table: u64, level: u8, first: usize) -> (r: bool)
    requires
        mem.wf(),
        pmm.wf(),
        level <= 3,
        first <= 512,
        mmu::wf_tree(mem@, table, level as nat),
    ensures
        r == forall|f: u64| #[trigger]
            mmu::owns(mem@, table, level as nat, first as int, f) ==> in_use(mem@, pmm@, f),
    decreases level,
{
    let ghost m = mem@;
    let ghost pool = pmm@;
    assert(mmu::owns(m, table, level as nat, first as int, table));
    if pmm.is_free(table) {
        assert(!in_use(m, pool, table));
        return false;
    }
    let mut i: usize = first;
    while i < 512
        invariant
            first <= i <= 512,
            level <= 3,
            mem.wf(),
            pmm.wf(),
            m == mem@,
            pool == pmm@,
            mmu::wf_tree(m, table, level as nat),
            forall|j: int, f: u64|
                #![trigger mmu::entry_owns(m, m[table][j], level as nat, f)]
                first <= j < i && mmu::entry_owns(m, m[table][j], level as nat, f) ==> in_use(
                    m,
                    pool,
                    f,
                ),
        decreases 512 - i,
    {
        let e = mem.read(table, i);
        assert(e == m[table][i as int]);
        if e & mmu::PAGE_PRESENT != 0 {
            let addr = e & mmu::ADDR_MASK;
            if level == 0 {
                if !mem.contains(addr) || pmm.is_free(addr) {
                    assert(mmu::present(m[table][i as int]));
                    assert(mmu::owns(m, table, 0, first as int, addr));
                    assert(!in_use(m, pool, addr));
                    return false;
                }
            } else if e & mmu::PAGE_HUGE == 0 {
                assert(mmu::links(m[table][i as int]));
                if !check_owned(mem, pmm, addr, level - 1, 0) {
                    proof {
                        let f = choose|f: u64| #[trigger]
                            mmu::owns(m, addr, (level - 1) as nat, 0, f) && !in_use(m, pool, f);
                        assert(mmu::present(m[table][i as int]));
                        assert(mmu::owns(m, table, level as nat, first as int, f));
                    }
                    return false;
                }
            }
        }
        assert forall|j: int, f: u64|
            #![trigger mmu::entry_owns(m, m[table][j], level as nat, f)]
            first <= j < i + 1 && mmu::entry_owns(m, m[table][j], level as nat, f) implies in_use(
            m,
            pool,
            f,
        ) by {}
        i += 1;
    }
    assert forall|f: u64| #[trigger]
        mmu::owns(m, table, level as nat, first as int, f) implies in_use(m, pool, f) by {
        if f != table {
            let j = choose|j: int|
                first <= j < 512 && mmu::present(#[trigger] m[table][j]) && if level == 0 {
                    f == mmu::addr_of(m[table][j])
                } else {
                    !mmu::huge(m[table][j]) && mmu::owns(
                        m,
                        mmu::addr_of(m[table][j]),
                        (level - 1) as nat,
                        0,
                        f,
                    )
                };
            assert(mmu::entry_owns(m, m[table][j], level as nat, f));
        }
    }
    true
}

/// Whether an address space can be copied.
pub fn can_clone(mem: &PhysMemory, pmm: &FrameBitmap, root: u64) -> (r: bool)
    requires
        mem.wf(),
        pmm.wf(),
    ensures
        r == mmu::cloneable(mem@, pmm@, root, 3, 1),
{
    if !can_fill(mem, pmm, root) {
        return false;
    }
    let r = check_owned(mem, pmm, root, 3, 1);
    assert(r ==> forall|f: u64| #[trigger]
        mmu::owns(mem@, root, 3, 1, f) ==> in_use(mem@, pmm@, f));
    r
}

/// Whether `caller` can try to collect a child.
pub fn collect_is_ready(k: &Kernel, caller: u64, status: u64) -> (r: bool)
    requires
        k.wf(),
    ensures
        r == syscall::can_collect(k@, caller, status),
{
    match process::first_zombie(&k.procs, caller) {
        Some(i) => {
            let child = k.procs.procs[i];
            (child.space_released || tables_ok(&k.mem, child.page_table)) && (status == 0
                || tables_ok(&k.mem, k.cr3))
        },
        None => true,
    }
}

/// Whether the caller can be replaced by the program that it names.
fn exec_is_ready(k: &Kernel, frame: &SyscallFrame) -> (r: bool)
    requires
        k.wf(),
    ensures
        r == syscall::can_exec(k@, *frame),
{
    if !tables_ok(&k.mem, k.cr3) {
        return false;
    }
    match user::read_name(&k.mem, k.cr3, frame.arg0) {
        Some(bytes) => match text::utf8(bytes.as_slice()) {
            Some(name) => match vfs::read(&k.fs, name) {
                Some(_) => can_fill(&k.mem, &k.pmm, k.cr3),
                None => true,
            },
            None => true,
        },
        None => true,
    }
}

/// Whether a system call can be carried out in the state that the kernel is in.
pub fn call_is_ready(k: &Kernel, frame: &SyscallFrame) -> (r: bool)
    requires
        k.wf(),
    ensures
        r == syscall::ready(k@, *frame),
{
    let caller = process::current_pid(&k.procs);
    if frame.num == syscall::SYS_FORK {
        if k.caps.enforce(caps::CAP_EXEC).is_err() {
            return true;
        }
        match process::find(&k.procs, caller) {
            Some(p) => can_clone(&k.mem, &k.pmm, p.page_table),
            None => true,
        }
    } else if frame.num == syscall::SYS_EXECVE {
        k.caps.enforce(caps::CAP_EXEC).is_err() || exec_is_ready(k, frame)
    } else if frame.num == syscall::SYS_WAIT {
        collect_is_ready(k, caller, frame.arg0)
    } else if frame.num == syscall::SYS_KILL {
        if k.caps.enforce(caps::CAP_PROC_CTL).is_err() {
            return true;
        }
        match process::find(&k.procs, frame.arg0) {
            Some(p) => match p.state {
                ProcessState::Running => frame.arg0 == caller || tables_ok(&k.mem, p.page_table),
                ProcessState::Zombie(_) => true,
            },
            None => true,
        }
    } else {
        true
    }
}

/// Whether a line of the console can be carried out in the state that the
/// kernel is in.
pub fn line_is_ready(k: &Kernel, line: &str) -> (r: bool)
    requires
        k.wf(),
    ensures
        r == (console::loads(text::words(line@, 0)) ==> elf::fillable(k@.mem, k@.pool, k@.cr3)),
{
    !console::loads_program(line) || can_fill(&k.mem, &k.pmm, k.cr3)
}

} // verus!
