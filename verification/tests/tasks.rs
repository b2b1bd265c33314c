//! Capabilities, processes, tasks, signals, interrupts and system calls.
use forge_kernel::apic::LocalApic;
use forge_kernel::audit;
use forge_kernel::caps::{self, Capabilities};
use forge_kernel::elf;
use forge_kernel::gdt;
use forge_kernel::heap::BumpAllocator;
use forge_kernel::idt::{self, ExceptionAction, Handlers, InterruptStackFrame};
use forge_kernel::mem::PhysMemory;
use forge_kernel::mmu;
use forge_kernel::pic;
use forge_kernel::pmm::{self, FrameBitmap};
use forge_kernel::preempt::{self, Preemption};
use forge_kernel::process::{self, ProcessState, ProcessTable};
use forge_kernel::ring3;
use forge_kernel::scheduler::{self, Scheduler};
use forge_kernel::signal;
use forge_kernel::syscall::{self, ForkHandoff, Kernel, LaunchHandoff, Outcome, SyscallFrame};
use forge_kernel::task::{Task, TaskState, STACK_SIZE};
use forge_kernel::user;
use forge_kernel::vfs;

const ROOT: u64 = 0x1000;

const HEAP_START: u64 = 0x100_0000;

fn kernel(frames: u64) -> Kernel {
    let mut pmm = FrameBitmap::new();
    for f in 16..frames {
        pmm::free_frame(&mut pmm, f * 4096);
    }
    Kernel {
        mem: PhysMemory::new(0, vec![0u64; frames as usize * 512]),
        pmm,
        cr3: ROOT,
        procs: ProcessTable::new(),
        sched: scheduler::init(),
        fs: vfs::init(),
        caps: Capabilities::unrestricted(),
        heap: BumpAllocator::new(),
        blocks: 0,
        heap_start: HEAP_START,
        user_rsp: 0x90_0000_0F00,
        syscall_stack_top: 0,
        fork: ForkHandoff { pid: 0, rip: 0, rsp: 0 },
        launch: LaunchHandoff { entry: 0, stack: 0 },
    }
}

/// A kernel in which a process with one page at 0x90_0000_0000 runs.
fn kernel_with_process() -> Kernel {
    let mut k = kernel(96);
    let root = mmu::create_address_space(&mut k.mem, &mut k.pmm, ROOT).unwrap();
    let page = pmm::alloc_frame(&mut k.pmm).unwrap();
    mmu::map_page_in(&mut k.mem, &mut k.pmm, ROOT, root, 0x90_0000_0000, page, true, false).unwrap();
    let (pid, _) = syscall::spawn_process(&mut k, 0x40_0078, 0x90_0000_1000, root, 0).unwrap();
    assert_eq!(pid, 1);
    k.cr3 = root;
    process::set_current_pid(&mut k.procs, pid);
    k.sched.current = 1;
    k
}

fn call(num: u64, arg0: u64, arg1: u64) -> SyscallFrame {
    SyscallFrame {
        num,
        arg0,
        arg1,
        arg2: 0,
        arg3: 0,
        arg4: 0,
        arg5: 0,
        user_rflags: 0x202,
        user_rip: 0x40_0080,
    }
}

fn perform(k: &mut Kernel, frame: &SyscallFrame) -> Outcome {
    syscall::syscall_dispatch(k, frame, &mut Vec::new())
}

/// What is logged of a call.
fn logged(k: &mut Kernel, frame: &SyscallFrame) -> String {
    let mut log = Vec::new();
    syscall::syscall_dispatch(k, frame, &mut log);
    text(log)
}

fn text(v: Vec<u8>) -> String {
    String::from_utf8(v).unwrap()
}

fn returned(o: Outcome) -> u64 {
    match o {
        Outcome::Return(v) => v,
        _ => panic!("not a plain return"),
    }
}

// --- capabilities ------------------------------------------------------------------

#[test]
fn a_pledge_is_irreversible() {
    let mut c = Capabilities::unrestricted();
    assert!(c.pledge(caps::CAP_STDIO | caps::CAP_FS_READ).is_ok());
    assert!(c.enforce(caps::CAP_STDIO).is_ok());
    let v = c.enforce(caps::CAP_NET).err().unwrap();
    assert_eq!(v.requested, caps::CAP_NET);
    assert_eq!(v.granted, caps::CAP_STDIO | caps::CAP_FS_READ);
    assert!(c.pledge(caps::CAP_STDIO | caps::CAP_FS_READ | caps::CAP_NET).is_err());
    assert!(c.allows(caps::CAP_FS_READ));
    assert!(c.pledge(caps::CAP_STDIO).is_ok());
    assert!(!c.allows(caps::CAP_FS_READ));
    assert!(c.pledge(caps::CAP_FS_READ).is_err());
}

#[test]
fn nothing_is_allowed_without_capabilities() {
    let c = Capabilities::none();
    assert!(c.enforce(caps::CAP_STDIO).is_err());
    assert!(c.allows(0));
}

// --- processes ---------------------------------------------------------------------

#[test]
fn processes_are_registered_and_found() {
    let mut t = ProcessTable::new();
    assert_eq!(process::alloc_pid(&mut t), 1);
    assert_eq!(process::alloc_pid(&mut t), 2);
    process::register(&mut t, 1, 0, 0x5000);
    process::register(&mut t, 2, 1, 0x6000);
    let p = process::find(&t, 2).unwrap();
    assert_eq!((p.pid, p.parent_pid, p.page_table), (2, 1, 0x6000));
    assert_eq!(p.state, ProcessState::Running);
    assert!(process::find(&t, 3).is_none());
    assert!(process::has_children(&t, 1));
    assert!(!process::has_children(&t, 2));
    assert!(process::set_page_table(&mut t, 1, 0x7000));
    assert!(!process::set_page_table(&mut t, 9, 0x7000));
    assert_eq!(process::list(&t)[0].page_table, 0x7000);
    assert_eq!(process::current_pid(&t), 0);
    process::set_current_pid(&mut t, 2);
    assert_eq!(process::current_pid(&t), 2);
}

#[test]
fn the_first_zombie_child_is_collected() {
    let mut k = kernel(64);
    let root = mmu::create_address_space(&mut k.mem, &mut k.pmm, ROOT).unwrap();
    let before = pmm::free_frame_count(&k.pmm);
    process::register(&mut k.procs, 5, 1, root);
    assert!(process::reap_zombie(&mut k.procs, &k.mem, &mut k.pmm, 1).is_none());
    assert!(process::mark_zombie(&mut k.procs, 5, -3));
    assert!(!process::mark_zombie(&mut k.procs, 6, 0));
    assert_eq!(process::reap_zombie(&mut k.procs, &k.mem, &mut k.pmm, 1), Some((5, -3)));
    assert!(process::find(&k.procs, 5).is_none());
    assert_eq!(pmm::free_frame_count(&k.pmm), before + 1);
}

// --- tasks and turns ---------------------------------------------------------------

#[test]
fn a_new_task_has_aligned_stacks() {
    let t = Task::new(3, 0x1008, 0x9001);
    assert_eq!(t.context.rsp, (0x1008 + STACK_SIZE as u64 - 16) / 16 * 16);
    assert_eq!(t.kernel_stack_top, (0x9001 + STACK_SIZE as u64) / 16 * 16);
    assert_eq!(t.state, TaskState::Ready);
    assert_eq!(Task::placeholder(0).kernel_stack_top, 0);
}

#[test]
fn turns_go_round_and_skip_finished_tasks() {
    let mut s: Scheduler = scheduler::init();
    assert!(scheduler::yield_now(&mut s, ROOT).is_none());
    assert_eq!(scheduler::spawn(&mut s, 0x1_0000), 1);
    assert_eq!(s.tasks[1].kernel_stack_top, 0);
    assert_eq!(scheduler::spawn_with_space(&mut s, 0x3_0000, 0x4_0000, 0x5000, 7), 2);
    assert_eq!(scheduler::task_count(&s), 3);
    let w = scheduler::yield_now(&mut s, ROOT).unwrap();
    assert_eq!((w.from, w.to, w.load_root, w.pid), (0, 1, None, 0));
    assert_eq!(w.kernel_stack_top, None);
    let w = scheduler::yield_now(&mut s, ROOT).unwrap();
    assert_eq!((w.from, w.to, w.load_root, w.pid), (1, 2, Some(0x5000), 7));
    assert_eq!(w.kernel_stack_top, Some(0x4_0000 + STACK_SIZE as u64));
    let w = scheduler::yield_now(&mut s, 0x5000).unwrap();
    assert_eq!((w.from, w.to, w.kernel_stack_top), (2, 0, None));
    assert!(scheduler::mark_finished_by_pid(&mut s, 7));
    assert!(!scheduler::mark_finished_by_pid(&mut s, 8));
    assert_eq!(scheduler::yield_now(&mut s, ROOT).unwrap().to, 1);
    assert_eq!(scheduler::yield_now(&mut s, ROOT).unwrap().to, 0);
    scheduler::mark_current_finished(&mut s);
    assert_eq!(scheduler::yield_now(&mut s, ROOT).unwrap().to, 1);
    assert!(scheduler::yield_now(&mut s, ROOT).is_none());
}

#[test]
fn a_process_keeps_its_active_space() {
    let mut s: Scheduler = scheduler::init();
    scheduler::spawn_with_space(&mut s, 0x3_0000, 0x4_0000, 0x5000, 7);
    assert_eq!(scheduler::yield_now(&mut s, 0x5000).unwrap().load_root, None);
}

#[test]
fn the_timer_takes_the_turn_only_from_the_kernel() {
    // The address has 36 bits.
    assert_eq!(LocalApic::init(0xFFFF_FFFF_FFFF_FFFF).0.base, 0xF_FFFF_F000);
    let (mut apic, msr, enable) = LocalApic::init(0xFEE0_0900);
    assert_eq!(msr, 0xFEE0_0900);
    assert_eq!((enable.addr, enable.value), (0xFEE0_00F0, 0x1FF));
    let mut p = Preemption::new();
    let t = preempt::timer_tick(&p, &mut apic, 0x08);
    assert!(!t.preempt);
    assert_eq!((t.eoi.addr, t.eoi.value), (0xFEE0_00B0, 0));
    p.set_enabled(true);
    assert!(preempt::timer_tick(&p, &mut apic, 0x08).preempt);
    assert!(!preempt::timer_tick(&p, &mut apic, 0x23).preempt);
    assert_eq!(apic.tick_count(), 3);
    let w = apic.start_periodic_timer(1000);
    assert_eq!((w[0].addr, w[0].value), (0xFEE0_03E0, 0b1011));
    assert_eq!((w[1].addr, w[1].value), (0xFEE0_0320, 0x2_0040));
    assert_eq!((w[2].addr, w[2].value), (0xFEE0_0380, 1000));
    assert_eq!(
        text(LocalApic::timer_report(1000)),
        "[apic] timer periódico armado, initial_count=1000 (sin calibrar)\n"
    );
    p.spin_a();
    p.spin_b();
    p.spin_b();
    assert_eq!(p.spin_counts(), (1, 2));
    let mut s = scheduler::init();
    assert_eq!(preempt::spawn_spin_tasks(&mut s, 0x1_0000, 0x3_0000), (1, 2));
    assert_eq!((s.tasks[1].kernel_stack_top, s.tasks[2].kernel_stack_top), (0, 0));
}

// --- signals -----------------------------------------------------------------------

#[test]
fn a_signal_terminates_another_process() {
    let mut k = kernel(64);
    let root = mmu::create_address_space(&mut k.mem, &mut k.pmm, ROOT).unwrap();
    process::register(&mut k.procs, 4, 1, root);
    scheduler::spawn_with_space(&mut k.sched, 0x1_0000, 0x2_0000, root, 4);
    let before = pmm::free_frame_count(&k.pmm);
    assert!(signal::deliver_default(&mut k.procs, &mut k.sched, &k.mem, &mut k.pmm, 4, signal::SIGTERM));
    assert_eq!(process::find(&k.procs, 4).unwrap().state, ProcessState::Zombie(143));
    assert_eq!(k.sched.tasks[1].state, TaskState::Finished);
    assert_eq!(pmm::free_frame_count(&k.pmm), before + 1);
    assert!(!signal::deliver_default(&mut k.procs, &mut k.sched, &k.mem, &mut k.pmm, 4, signal::SIGTERM));
    assert!(!signal::deliver_default(&mut k.procs, &mut k.sched, &k.mem, &mut k.pmm, 5, signal::SIGTERM));
}

#[test]
fn the_running_process_keeps_its_space_when_killed() {
    let mut k = kernel_with_process();
    let before = pmm::free_frame_count(&k.pmm);
    let mut log = Vec::new();
    assert!(signal::kill_current(
        &mut k.procs,
        &mut k.sched,
        &k.mem,
        &mut k.pmm,
        signal::SIGSEGV,
        &mut log
    ));
    assert_eq!(text(log), "[signal] PID 1 recibe SIGSEGV — terminando (sin manejador propio instalado)\n");
    assert_eq!(process::find(&k.procs, 1).unwrap().state, ProcessState::Zombie(139));
    assert_eq!(pmm::free_frame_count(&k.pmm), before);
}

#[test]
fn signals_have_names() {
    assert_eq!(signal::signal_name(9), "SIGKILL");
    assert_eq!(signal::signal_name(11), "SIGSEGV");
    assert_eq!(signal::signal_name(15), "SIGTERM");
    assert_eq!(signal::signal_name(1), "señal desconocida");
    assert_eq!(signal::low_i32(0xFFFF_FFFF), -1);
    assert_eq!(signal::low_i32(0x1_7FFF_FFFF), 0x7FFF_FFFF);
}

// --- segments and interrupts -------------------------------------------------------

#[test]
fn user_code_enters_with_user_segments() {
    let f = ring3::enter_ring3(0x40_0078, 0x90_0000_1000);
    assert_eq!((f.rip, f.rsp, f.rflags, f.rax), (0x40_0078, 0x90_0000_1000, 0x202, None));
    assert_eq!((f.cs, f.ss), (0x23, 0x1B));
    assert_eq!(ring3::enter_ring3_with_rax(1, 2, 0).rax, Some(0));
}

#[test]
fn the_segment_table_points_to_the_task_state() {
    let (mut tss, table) = gdt::init(0x1234_5678_9ABC_DEF0, 0x1000, 0x8000);
    assert_eq!(table.len(), 7);
    assert_eq!(table[0], 0);
    assert_eq!(table[1], 0x00AF_9A00_0000_FFFF);
    assert_eq!(table[4], 0x00AF_FA00_0000_FFFF);
    assert_eq!(table[6], 0x1234_5678);
    assert_eq!(table[5] >> 16 & 0xFF_FFFF, 0xBC_DEF0);
    assert_eq!(table[5] >> 56, 0x9A);
    assert_eq!(table[5] >> 40 & 0xFF, 0x89);
    assert_eq!(tss.ist[0], 0x1000 + gdt::DOUBLE_FAULT_STACK_SIZE);
    assert_eq!(tss.rsp[0], 0x8000 + gdt::RSP0_STACK_SIZE);
    gdt::set_rsp0(&mut tss, 0xF000);
    assert_eq!(tss.rsp[0], 0xF000);
}

#[test]
fn handlers_are_in_the_interrupt_table() {
    let table = idt::init(Handlers {
        divide_error: 0x1111_2222_3333_4444,
        breakpoint: 2,
        invalid_opcode: 3,
        double_fault: 4,
        general_protection_fault: 5,
        page_fault: 6,
        timer: 7,
        keyboard: 8,
    });
    assert_eq!(table.len(), 256);
    assert_eq!((table[0].offset_low, table[0].offset_mid, table[0].offset_high), (0x4444, 0x3333, 0x1111_2222));
    assert_eq!(table[0].type_attr, 0x8E);
    assert_eq!((table[8].offset_low, table[8].ist), (4, 1));
    assert_eq!(table[14].offset_low, 6);
    assert_eq!(table[0x40].offset_low, 7);
    assert_eq!(table[33].offset_low, 8);
    assert_eq!((table[1].type_attr, table[1].offset_low), (0, 0));
}

#[test]
fn exceptions_have_consequences() {
    let user = InterruptStackFrame {
        instruction_pointer: 0,
        code_segment: 0x23,
        cpu_flags: 0,
        stack_pointer: 0,
        stack_segment: 0,
    };
    let kernel = InterruptStackFrame { code_segment: 0x08, ..user };
    assert_eq!(idt::exception(3, &kernel), ExceptionAction::Resume);
    assert_eq!(idt::exception(14, &user), ExceptionAction::KillCurrent(11));
    assert_eq!(idt::exception(14, &kernel), ExceptionAction::Halt);
    assert_eq!(idt::exception(13, &user), ExceptionAction::Halt);
}

#[test]
fn interrupt_controllers_are_moved_and_masked() {
    let w = pic::init();
    assert_eq!(w.len(), 18);
    assert_eq!((w[4].port, w[4].value), (0x21, 32));
    assert_eq!((w[6].port, w[6].value), (0xA1, 40));
    assert_eq!((w[17].port, w[17].value), (0xA1, 0xFF));
    assert_eq!(pic::end_of_interrupt(1).len(), 1);
    assert_eq!(pic::end_of_interrupt(8)[0].port, 0xA0);
    assert_eq!(pic::mask_port(9), 0xA1);
    let u = pic::unmask(1, 0xFF);
    assert_eq!((u.port, u.value), (0x21, 0xFD));
    assert_eq!(pic::unmask(12, 0xFF).value, 0xEF);
}

// --- system calls ------------------------------------------------------------------

#[test]
fn system_call_registers_are_set() {
    let r = syscall::init(0x500, 0xABCD);
    assert_eq!(r.efer, 0x501);
    assert_eq!(r.lstar, 0xABCD);
    assert_eq!(r.star, 0x0010_0008_0000_0000);
    let mut k = kernel(32);
    syscall::set_syscall_stack_top(&mut k, 0x7000);
    assert_eq!(k.syscall_stack_top, 0x7000);
}

#[test]
fn ping_needs_its_capability() {
    let mut k = kernel_with_process();
    k.caps = Capabilities::unrestricted();
    assert_eq!(returned(perform(&mut k, &call(syscall::SYS_PING, 0, 0))), 0xC0FFEE);
    k.caps = Capabilities::none();
    assert_eq!(returned(perform(&mut k, &call(syscall::SYS_PING, 0, 0))), u64::MAX);
}

#[test]
fn unknown_calls_fail() {
    let mut k = kernel_with_process();
    assert_eq!(returned(perform(&mut k, &call(999, 0, 0))), u64::MAX);
}

#[test]
fn a_denied_fork_changes_nothing() {
    let mut k = kernel_with_process();
    k.caps = Capabilities::none();
    let free = pmm::free_frame_count(&k.pmm);
    assert_eq!(returned(perform(&mut k, &call(syscall::SYS_FORK, 0, 0))), u64::MAX);
    assert_eq!(process::list(&k.procs).len(), 1);
    assert_eq!(pmm::free_frame_count(&k.pmm), free);
}

#[test]
fn the_pid_of_the_caller_is_returned() {
    let mut k = kernel_with_process();
    assert_eq!(returned(perform(&mut k, &call(syscall::SYS_GETPID, 0, 0))), 1);
}

#[test]
fn fork_then_exit_then_wait() {
    let mut k = kernel_with_process();
    let page = mmu::translate(&k.mem, k.cr3, 0x90_0000_0000).unwrap();
    k.mem.write(page, 0, 5);
    let before = pmm::free_frame_count(&k.pmm);
    let (pid, slot) = match perform(&mut k, &call(syscall::SYS_FORK, 0, 0)) {
        Outcome::Spawned { pid, entry_slot } => (pid, entry_slot),
        _ => panic!("no child"),
    };
    assert_eq!(pid, 2);
    assert_eq!(slot, k.sched.tasks[2].context.rsp);
    let child = process::find(&k.procs, 2).unwrap();
    assert_eq!(child.parent_pid, 1);
    let twin = mmu::translate(&k.mem, child.page_table, 0x90_0000_0000).unwrap();
    assert_ne!(twin, page);
    assert_eq!(k.mem.read(twin, 0), 5);
    let f = syscall::fork_child_trampoline(&k);
    assert_eq!((f.rip, f.rsp, f.rax), (0x40_0080, 0x90_0000_0F00, Some(0)));

    // The parent finds no zombie yet and has to wait.
    assert!(matches!(
        perform(&mut k, &call(syscall::SYS_WAIT, 0x90_0000_0010, 0)),
        Outcome::Wait
    ));
    // The child runs and exits.
    process::set_current_pid(&mut k.procs, 2);
    k.sched.current = 2;
    k.cr3 = child.page_table;
    assert!(matches!(perform(&mut k, &call(syscall::SYS_EXIT, 7, 0)), Outcome::Park));
    assert_eq!(process::find(&k.procs, 2).unwrap().state, ProcessState::Zombie(7));
    assert_eq!(k.sched.tasks[2].state, TaskState::Finished);
    // The parent goes on.
    process::set_current_pid(&mut k.procs, 1);
    k.sched.current = 1;
    k.cr3 = process::find(&k.procs, 1).unwrap().page_table;
    assert_eq!(returned(syscall::resume_wait(&mut k, 1, 0x90_0000_0010, &mut Vec::new())), 2);
    assert_eq!(k.mem.read(page, 2), 7);
    assert!(process::find(&k.procs, 2).is_none());
    assert_eq!(pmm::free_frame_count(&k.pmm), before);
    // No children are left.
    assert_eq!(returned(perform(&mut k, &call(syscall::SYS_WAIT, 0, 0))), u64::MAX);
}

#[test]
fn a_process_can_kill_another() {
    let mut k = kernel_with_process();
    let pid = match perform(&mut k, &call(syscall::SYS_FORK, 0, 0)) {
        Outcome::Spawned { pid, .. } => pid,
        _ => panic!("no child"),
    };
    assert_eq!(returned(perform(&mut k, &call(syscall::SYS_KILL, pid, 9))), 0);
    assert_eq!(process::find(&k.procs, pid).unwrap().state, ProcessState::Zombie(137));
    assert_eq!(returned(perform(&mut k, &call(syscall::SYS_KILL, pid, 9))), u64::MAX);
    assert_eq!(returned(perform(&mut k, &call(syscall::SYS_KILL, 99, 9))), u64::MAX);
}

#[test]
fn execve_replaces_the_program() {
    let mut k = kernel_with_process();
    let page = mmu::translate(&k.mem, k.cr3, 0x90_0000_0000).unwrap();
    k.mem.write_bytes(page, 0, b"prog\0");
    assert_eq!(
        returned(perform(&mut k, &call(syscall::SYS_EXECVE, 0x90_0000_0000, 0))),
        u64::MAX
    );
    vfs::write(&mut k.fs, "prog", &elf::TEST_ELF_SYSCALL);
    match perform(&mut k, &call(syscall::SYS_EXECVE, 0x90_0000_0000, 0)) {
        Outcome::Enter { root, frame } => {
            assert_eq!(k.cr3, root);
            assert_eq!(frame.rip, 0x40_0078);
            assert_eq!(frame.rsp, syscall::USER_STACK_VIRT + 4096);
            assert_eq!(process::find(&k.procs, 1).unwrap().page_table, root);
        },
        _ => panic!("the program was not entered"),
    }
}

#[test]
fn a_name_that_is_not_text_is_no_file() {
    let mut k = kernel_with_process();
    let page = mmu::translate(&k.mem, k.cr3, 0x90_0000_0000).unwrap();
    k.mem.write_bytes(page, 0, &[0xFF, 0xFE, 0]);
    assert_eq!(
        returned(perform(&mut k, &call(syscall::SYS_EXECVE, 0x90_0000_0000, 0))),
        u64::MAX
    );
    assert!(matches!(
        perform(&mut k, &call(syscall::SYS_EXECVE, 0xA0_0000_0000, 0)),
        Outcome::Halt
    ));
}

#[test]
fn a_launched_process_starts_where_it_says() {
    let mut k = kernel(64);
    let (pid, slot) = syscall::spawn_process(&mut k, 0x40_0078, 0x90_0000_1000, 0x5000, 0).unwrap();
    assert_eq!(pid, 1);
    assert_eq!(slot, k.sched.tasks[1].context.rsp);
    assert_eq!(k.sched.tasks[1].pid, 1);
    let f = syscall::launch_trampoline(&k);
    assert_eq!((f.rip, f.rsp, f.rax), (0x40_0078, 0x90_0000_1000, None));
    // 1 MiB of heap holds 32 pairs of stacks.
    for _ in 1..32 {
        assert!(syscall::spawn_process(&mut k, 0, 0, 0x5000, 0).is_some());
    }
    assert!(syscall::spawn_process(&mut k, 0, 0, 0x5000, 0).is_none());
}

/// The addresses of the given page in two address spaces lead to frames of
/// their own.
fn apart(k: &Kernel, a: u64, b: u64, v: u64) -> bool {
    mmu::translate(&k.mem, a, v).unwrap() != mmu::translate(&k.mem, b, v).unwrap()
}

#[test]
fn calls_keep_address_spaces_apart() {
    const V: u64 = 0x90_0000_0000;
    let mut k = kernel_with_process();
    let parent = k.cr3;
    let page = mmu::translate(&k.mem, parent, V).unwrap();
    k.mem.write(page, 0, 0x1234);
    let full = pmm::free_frame_count(&k.pmm);
    let mut roots = vec![parent];
    for _ in 0..2 {
        match perform(&mut k, &call(syscall::SYS_FORK, 0, 0)) {
            Outcome::Spawned { pid, .. } => {
                roots.push(process::find(&k.procs, pid).unwrap().page_table)
            },
            _ => panic!("no child"),
        }
    }
    for i in 0..3 {
        for j in 0..i {
            assert!(apart(&k, roots[i], roots[j], V));
        }
    }
    // A page mapped in one of them is seen in that one only.
    let extra = pmm::alloc_frame(&mut k.pmm).unwrap();
    mmu::map_page_in(&mut k.mem, &mut k.pmm, k.cr3, roots[1], V + 0x1000, extra, true, false).unwrap();
    assert_eq!(mmu::translate(&k.mem, roots[1], V + 0x1000), Some(extra));
    assert_eq!(mmu::translate(&k.mem, parent, V + 0x1000), None);
    assert_eq!(mmu::translate(&k.mem, roots[2], V + 0x1000), None);
    // Ending that process releases all it had, and nothing of the others.
    let before = pmm::free_frame_count(&k.pmm);
    assert_eq!(returned(perform(&mut k, &call(syscall::SYS_KILL, 2, 15))), 0);
    assert_eq!(pmm::free_frame_count(&k.pmm), before + 6);
    let twin = mmu::translate(&k.mem, roots[2], V).unwrap();
    assert_eq!((k.mem.read(page, 0), k.mem.read(twin, 0)), (0x1234, 0x1234));
    // So does a program that starts: it gets frames of its own.
    k.mem.write_bytes(page, 0, b"prog\0");
    vfs::write(&mut k.fs, "prog", &elf::TEST_ELF_SYSCALL);
    assert!(matches!(
        perform(&mut k, &call(syscall::SYS_EXECVE, V, 0)),
        Outcome::Enter { .. }
    ));
    assert!(k.cr3 != parent && k.cr3 != roots[2]);
    assert_eq!(k.mem.read(twin, 0), 0x1234);
    assert_eq!(mmu::translate(&k.mem, roots[2], V), Some(twin));
    assert!(pmm::free_frame_count(&k.pmm) < full);
}

#[test]
fn a_killed_child_is_released_once() {
    let mut k = kernel_with_process();
    let before = pmm::free_frame_count(&k.pmm);
    let pid = match perform(&mut k, &call(syscall::SYS_FORK, 0, 0)) {
        Outcome::Spawned { pid, .. } => pid,
        _ => panic!("no child"),
    };
    let root = process::find(&k.procs, pid).unwrap().page_table;
    assert_eq!(returned(perform(&mut k, &call(syscall::SYS_KILL, pid, 9))), 0);
    assert!(process::find(&k.procs, pid).unwrap().space_released);
    assert_eq!(pmm::free_frame_count(&k.pmm), before);
    // Its root goes to a new owner before it is collected.
    assert_eq!(pmm::alloc_frame(&mut k.pmm), Some(root));
    assert_eq!(returned(perform(&mut k, &call(syscall::SYS_WAIT, 0, 0))), pid);
    assert!(process::find(&k.procs, pid).is_none());
    assert_eq!(pmm::free_frame_count(&k.pmm), before - 1);
    assert_ne!(pmm::alloc_frame(&mut k.pmm), Some(root));
}

#[test]
fn calls_are_logged() {
    let mut k = kernel_with_process();
    assert_eq!(
        logged(&mut k, &call(syscall::SYS_PING, 0xAB, 0)),
        "[syscall] SYS_PING recibido desde ring 3 — arg0=0xab. Volviendo a ring 3 vía sysret.\n"
    );
    assert_eq!(logged(&mut k, &call(syscall::SYS_GETPID, 0, 0)), "");
    assert_eq!(logged(&mut k, &call(999, 0, 0)), "[syscall] número desconocido: 999\n");
    let fork = logged(&mut k, &call(syscall::SYS_FORK, 0, 0));
    let root = process::find(&k.procs, 2).unwrap().page_table;
    assert_eq!(fork, format!("[syscall] fork: PID 1 -> hijo PID 2 (PML4 nuevo @ 0x{:x})\n", root));
    assert_eq!(
        logged(&mut k, &call(syscall::SYS_KILL, 9, 15)),
        "[syscall] kill: PID 1 -> PID 9 falló (no existe o ya era zombie)\n"
    );
    assert_eq!(
        logged(&mut k, &call(syscall::SYS_KILL, 2, 15)),
        "[syscall] kill: PID 1 mandó señal 15 a PID 2\n"
    );
    assert_eq!(
        logged(&mut k, &call(syscall::SYS_WAIT, 0, 0)),
        "[syscall] wait: PID 1 recogió al hijo PID 2 (código 143) — memoria liberada\n"
    );
    let page = mmu::translate(&k.mem, k.cr3, 0x90_0000_0000).unwrap();
    k.mem.write_bytes(page, 0, b"prog\0");
    let execve = call(syscall::SYS_EXECVE, 0x90_0000_0000, 0);
    assert_eq!(logged(&mut k, &execve), "[syscall] execve: 'prog' no existe en el VFS\n");
    vfs::write(&mut k.fs, "prog", b"nada");
    assert!(logged(&mut k, &execve).starts_with("[syscall] execve: carga de ELF falló: "));
    vfs::write(&mut k.fs, "prog", &elf::TEST_ELF_SYSCALL);
    assert_eq!(
        logged(&mut k, &execve),
        "[syscall] execve: PID 1 -> 'prog' cargado, entry=0x400078 (espacio de direcciones reemplazado)\n"
    );
    assert_eq!(
        logged(&mut k, &call(syscall::SYS_EXIT, u64::MAX, 0)),
        "[syscall] exit: PID 1 terminó con código -1\n"
    );
    k.caps = Capabilities::none();
    assert_eq!(
        logged(&mut k, &call(syscall::SYS_PING, 0, 0)),
        "[syscall] SYS_PING DENEGADO — pedido=0x1, otorgado=0x0 (falta CAP_STDIO)\n"
    );
    assert!(logged(&mut k, &call(syscall::SYS_KILL, 1, 9)).contains("SYS_KILL DENEGADO"));
}

#[test]
fn exceptions_are_logged() {
    let frame = InterruptStackFrame {
        instruction_pointer: 0x40_0080,
        code_segment: 0x23,
        cpu_flags: 0,
        stack_pointer: 0,
        stack_segment: 0,
    };
    assert_eq!(text(idt::exception_report(0, 0, 0, &frame)), "[EXCEPTION] Divide error (#DE)\n");
    assert_eq!(
        text(idt::exception_report(3, 0, 0, &frame)),
        "[EXCEPTION] Breakpoint (#BP) en rip=0x400080 — continuando\n"
    );
    assert_eq!(
        text(idt::exception_report(14, 4, 0xDEAD, &frame)),
        "[EXCEPTION] Page fault en dirección=0xdead (error_code=4, rip=0x400080, ring3=true)\n"
    );
    assert_eq!(
        text(idt::exception_report(13, 7, 0, &frame)),
        "[EXCEPTION] GPF (error_code=7) en rip=0x400080\n"
    );
}

// --- memory of a process -----------------------------------------------------------

#[test]
fn user_memory_is_reached_through_its_addresses() {
    let mut k = kernel_with_process();
    let page = mmu::translate(&k.mem, k.cr3, 0x90_0000_0000).unwrap();
    assert!(user::write_i32(&mut k.mem, k.cr3, 0x90_0000_0020, -2));
    assert_eq!(k.mem.read_byte(page, 0x20), 0xFE);
    assert_eq!(user::read_byte(&k.mem, k.cr3, 0x90_0000_0023), Some(0xFF));
    assert_eq!(user::read_byte(&k.mem, k.cr3, 0xA0_0000_0000), None);
    assert!(!user::write_i32(&mut k.mem, k.cr3, 0x90_0000_0FFE, 1));
    k.mem.write_bytes(page, 0x100, b"abc\0");
    assert_eq!(user::read_name(&k.mem, k.cr3, 0x90_0000_0100), Some(b"abc".to_vec()));
}

#[test]
fn calls_are_checked_before_they_run() {
    let calls = [
        call(syscall::SYS_FORK, 0, 0),
        call(syscall::SYS_EXECVE, 0x90_0000_0000, 0),
        call(syscall::SYS_WAIT, 0, 0),
        call(syscall::SYS_KILL, 2, 9),
    ];
    let mut k = kernel_with_process();
    assert!(matches!(perform(&mut k, &calls[0]), Outcome::Spawned { pid: 2, .. }));
    let child = process::find(&k.procs, 2).unwrap().page_table;
    for c in &calls {
        assert!(audit::call_is_ready(&k, c));
    }
    assert!(audit::collect_is_ready(&k, 1, 0x90_0000_0000));
    // The tables of the child lead nowhere, then those of the caller do too.
    k.mem.write(child, 1, 0x4000_0003);
    assert!(audit::call_is_ready(&k, &calls[0]));
    assert!(audit::call_is_ready(&k, &calls[1]));
    assert!(audit::call_is_ready(&k, &calls[2]));
    assert!(!audit::call_is_ready(&k, &calls[3]));
    let root = k.cr3;
    k.mem.write(root, 1, 0x4000_0003);
    assert!(!audit::call_is_ready(&k, &calls[0]));
    assert!(!audit::call_is_ready(&k, &calls[1]));
    // Once the child is over, it can be collected no longer either.
    process::mark_zombie(&mut k.procs, 2, 0);
    assert_eq!(process::first_zombie(&k.procs, 1), Some(1));
    assert!(!audit::call_is_ready(&k, &calls[2]));
    assert!(!audit::collect_is_ready(&k, 1, 0));
    assert!(audit::collect_is_ready(&k, 2, 0));
    assert!(audit::call_is_ready(&k, &calls[3]));
    // A call that is refused needs nothing.
    k.caps.pledge(caps::CAP_STDIO).unwrap();
    for c in [&calls[0], &calls[1], &calls[3]] {
        assert!(audit::call_is_ready(&k, c));
    }
}
