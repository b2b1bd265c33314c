//! Printing, the line editor and the commands of the console.
use forge_kernel::audit;
use forge_kernel::caps::{self, Capabilities};
use forge_kernel::console::{self, Command, Next, Programs, Reply, Surroundings};
use forge_kernel::diskview::DiskJob;
use forge_kernel::elf;
use forge_kernel::fmt;
use forge_kernel::heap::BumpAllocator;
use forge_kernel::line::LineEditor;
use forge_kernel::mem::PhysMemory;
use forge_kernel::mmu;
use forge_kernel::ping;
use forge_kernel::pmm::{self, FrameBitmap};
use forge_kernel::process::{self, ProcessTable};
use forge_kernel::scheduler;
use forge_kernel::syscall::{ForkHandoff, Kernel, LaunchHandoff};
use forge_kernel::task::{TaskState, STACK_SIZE};
use forge_kernel::text;
use forge_kernel::vfs;

const ROOT: u64 = 0x1000;

fn kernel(frames: u64) -> Kernel {
    let mut pmm = FrameBitmap::new();
    for f in 16..frames {
        pmm::free_frame(&mut pmm, f * 4096);
    }
    Kernel {
        mem: PhysMemory::new(0, vec![0u64; frames as usize * 512]),
        pmm,
        cr3: ROOT,
        procs: ProcessTable::new(),
        sched: scheduler::init(),
        fs: vfs::init(),
        caps: Capabilities::unrestricted(),
        heap: BumpAllocator::new(),
        blocks: 0,
        heap_start: 0x100_0000,
        user_rsp: 0,
        syscall_stack_top: 0,
        fork: ForkHandoff { pid: 0, rip: 0, rsp: 0 },
        launch: LaunchHandoff { entry: 0, stack: 0 },
    }
}

/// A program outside of what address spaces share.
fn program() -> Vec<u8> {
    let mut image = elf::TEST_ELF_RING3.to_vec();
    image[80..88].copy_from_slice(&0x80_0000_0000u64.to_le_bytes());
    image
}

fn programs() -> Programs {
    Programs {
        fork: program(),
        fork_wait: program(),
        ping_exit: b"servicio".to_vec(),
        execve: program(),
        ember: program(),
        segv: program(),
        kill: program(),
    }
}

const EQUIPPED: Surroundings = Surroundings { disk: true, screen: true };

fn run(k: &mut Kernel, line: &str) -> Reply {
    console::dispatch(k, &programs(), &Surroundings { disk: false, screen: false }, line)
}

fn says(k: &mut Kernel, line: &str) -> String {
    let r = run(k, line);
    assert!(matches!(r.next, Next::Prompt));
    String::from_utf8(r.out).unwrap()
}

// --- printing ----------------------------------------------------------------------

fn printed(f: impl Fn(&mut Vec<u8>)) -> String {
    let mut v: Vec<u8> = Vec::new();
    f(&mut v);
    String::from_utf8(v).unwrap()
}

#[test]
fn numbers_are_printed() {
    assert_eq!(printed(|v| fmt::push_decimal(v, 0)), "0");
    assert_eq!(printed(|v| fmt::push_decimal(v, u64::MAX)), "18446744073709551615");
    assert_eq!(printed(|v| fmt::push_signed(v, i32::MIN)), "-2147483648");
    assert_eq!(printed(|v| fmt::push_signed(v, 42)), "42");
    assert_eq!(printed(|v| fmt::push_hex2(v, 0x0A)), "0a");
    assert_eq!(printed(|v| fmt::push_hex4(v, 0xBEEF)), "beef");
    assert_eq!(printed(|v| fmt::push_hex(v, 0)), "0");
    assert_eq!(printed(|v| fmt::push_hex(v, 0xFEE0_0010)), "fee00010");
    assert_eq!(printed(|v| fmt::push_left_aligned(v, 7, 4)), "7   ");
    assert_eq!(printed(|v| fmt::push_left_aligned(v, 12345, 4)), "12345");
    assert_eq!(printed(|v| fmt::push_truth(v, false)), "false");
    assert_eq!(printed(|v| fmt::push_text(v, "ñ")), "ñ");
}

// --- lines and words ---------------------------------------------------------------

#[test]
fn a_line_is_edited() {
    let mut e = LineEditor::new();
    assert_eq!(e.key(0x08), (vec![], false));
    assert_eq!(e.key(b'h'), (vec![b'h'], false));
    assert_eq!(e.key(b'x'), (vec![b'x'], false));
    assert_eq!(e.key(0x7F), (vec![8, 32, 8], false));
    assert_eq!(e.key(b'i'), (vec![b'i'], false));
    assert_eq!(e.key(b'\r'), (vec![13, 10], true));
    assert_eq!(e.take_line(), "hi");
    assert_eq!(e.key(b'\n'), (vec![13, 10], true));
    assert_eq!(e.take_line(), "");
}

#[test]
fn broken_text_is_replaced() {
    let mut e = LineEditor::new();
    for b in [b'a', 0xFF, b'b'] {
        e.key(b);
    }
    assert_eq!(e.take_line(), "a\u{FFFD}b");
    for b in "ñandú".bytes() {
        e.key(b);
    }
    assert_eq!(e.take_line(), "ñandú");
}

#[test]
fn words_are_what_white_space_parts() {
    assert!(text::split_whitespace(" \t\u{3000}\r\n").is_empty());
    assert_eq!(text::split_whitespace("  uno\u{A0}dos\ttrés "), ["uno", "dos", "trés"]);
    for c in (0..=0x10FFFFu32).filter_map(char::from_u32) {
        let s = c.to_string();
        assert_eq!(text::split_whitespace(&s).is_empty(), c.is_whitespace());
    }
}

#[test]
fn texts_are_compared() {
    assert!(text::same_text("añb", "añb"));
    assert!(!text::same_text("añb", "añc"));
    assert!(!text::same_text("a", "ab"));
    assert_eq!(text::from_utf16(&vec![0x48, 0xD83D, 0xDE00, 0xDC00]), "H\u{1F600}\u{FFFD}");
}

// --- commands ----------------------------------------------------------------------

#[test]
fn commands_have_names() {
    assert_eq!(console::find_command("help"), Command::Help);
    assert_eq!(console::find_command("panic"), Command::Panic);
    assert_eq!(console::find_command("Help"), Command::Unknown);
    assert_eq!(console::find_command(""), Command::Unknown);
}

#[test]
fn plain_answers() {
    let mut k = kernel(64);
    assert_eq!(says(&mut k, "   "), "");
    assert!(says(&mut k, "help").starts_with("comandos: help, meminfo, caps,"));
    assert_eq!(says(&mut k, "vuela alto"), "comando desconocido: 'vuela' (prueba 'help')\r\n");
    assert_eq!(says(&mut k, "meminfo"), "frames libres: 48 (~192 KiB)\r\nheap usado: 0 bytes\r\n");
    assert_eq!(
        says(&mut k, "caps"),
        "pledge STDIO -> enforce STDIO permitido = true\r\nenforce NET (no pledgeado) permitido = false\r\n"
    );
    assert_eq!(says(&mut k, "fb"), "sin framebuffer disponible\r\n");
    assert_eq!(says(&mut k, "disktest"), "no se encontró ningún disco SATA listo\r\n");
}

#[test]
fn files_over_the_console() {
    let mut k = kernel(64);
    assert_eq!(says(&mut k, "cat"), "uso: cat <nombre>\r\n");
    assert_eq!(says(&mut k, "cat nota"), "no existe: nota\r\n");
    assert_eq!(says(&mut k, "write nota"), "uso: write <nombre> <texto...>\r\n");
    assert_eq!(says(&mut k, "write nota  hola   mundo"), "escrito: nota (10 bytes)\r\n");
    assert_eq!(says(&mut k, " cat nota x"), "hola mundo\r\n");
    assert_eq!(says(&mut k, "write abc ñ"), "escrito: abc (2 bytes)\r\n");
    assert_eq!(says(&mut k, "ls"), "abc\r\nnota\r\n");
}

#[test]
fn processes_are_listed() {
    let mut k = kernel(64);
    process::register(&mut k.procs, 1, 0, 0x5000);
    process::register(&mut k.procs, 12345, 1, 0x6000);
    process::mark_zombie(&mut k.procs, 12345, -7);
    assert_eq!(
        says(&mut k, "ps"),
        "PID  PPID  ESTADO\r\n1    0     running\r\n12345 1     zombie(code=-7)\r\n"
    );
}

#[test]
fn work_for_the_hardware_is_handed_on() {
    let mut k = kernel(64);
    assert!(matches!(run(&mut k, "pci").next, Next::ScanPci));
    assert!(matches!(run(&mut k, "ahci").next, Next::ProbeDisks));
    assert!(matches!(run(&mut k, "net").next, Next::ProbeNet));
    let r = run(&mut k, "ping");
    assert!(matches!(r.next, Next::Ping));
    assert_eq!(r.out, ping::INIT.as_bytes());
    assert!(matches!(run(&mut k, "bp").next, Next::Breakpoint));
    assert!(matches!(run(&mut k, "panic").next, Next::Panic(console::PANIC)));
    let r = console::dispatch(&mut k, &programs(), &EQUIPPED, "disktest");
    assert!(matches!(r.next, Next::TestDisk(2048)));
    assert_eq!(r.out, console::DISK_TEST.as_bytes());
    let r = console::dispatch(&mut k, &programs(), &EQUIPPED, "fb");
    // What is said of it comes when it is drawn.
    assert!(matches!(r.next, Next::DrawBanner(console::REDRAWN)));
    assert!(r.out.is_empty());
    assert_eq!(console::disk_test_report(Ok(())), console::DISK_OK.as_bytes());
    assert_eq!(console::disk_test_report(Err("mal")), b"FALLO: mal\r\n");
}

#[test]
fn ring_3_is_entered() {
    let mut k = kernel(64);
    let r = run(&mut k, "ring3test");
    assert_eq!(r.out, console::RING3_LOAD.as_bytes());
    match r.next {
        Next::Enter { root, frame } => {
            assert_eq!(root, 16 * 4096);
            assert_eq!(k.cr3, root);
            assert_eq!((frame.rip, frame.rsp), (0x40_0078, 0xB0_0000_1000));
            assert!(mmu::translate(&k.mem, root, 0xB0_0000_0000).is_some());
        },
        _ => panic!("not entered"),
    }
    let mut k = kernel(64);
    let r = run(&mut k, "synccalldeny");
    assert!(matches!(r.next, Next::Enter { .. }));
    assert!(!k.caps.allows(caps::CAP_STDIO));
    let mut k = kernel(64);
    let r = run(&mut k, "synccalltest");
    assert!(matches!(r.next, Next::Enter { .. }));
    assert!(k.caps.allows(caps::CAP_STDIO));
    assert!(!k.caps.allows(caps::CAP_EXEC));
}

#[test]
fn processes_are_started() {
    let mut k = kernel(96);
    let r = run(&mut k, "forktest");
    match r.next {
        Next::Turns { entry_slot, turns, report } => {
            assert_eq!(entry_slot, k.sched.tasks[1].context.rsp);
            assert_eq!((turns, report), (2, console::FORK_BACK));
        },
        _ => panic!("not started"),
    }
    assert_eq!(
        String::from_utf8(r.out).unwrap(),
        "cargando ELF de fork y arrancandolo como proceso real...\r\nPID 1 arrancado — cediendo turno para que padre e hijo corran...\r\n"
    );
    let p = process::find(&k.procs, 1).unwrap();
    assert_eq!(p.parent_pid, 0);
    assert!(mmu::translate(&k.mem, p.page_table, 0x90_0000_0000).is_some());
    assert!(k.caps.allows(caps::CAP_STDIO | caps::CAP_EXEC));
    assert!(matches!(run(&mut k, "waittest").next, Next::Turns { turns: 2, .. }));
    assert!(matches!(run(&mut k, "exec").next, Next::Turns { turns: 2, .. }));
    assert_eq!(vfs::read(&k.fs, "pingtest"), Some(b"servicio".to_vec()));
    assert!(matches!(run(&mut k, "ember").next, Next::Turns { turns: 4, .. }));
    assert_eq!(vfs::list(&k.fs), ["ember-svc0", "ember-svc1", "pingtest"]);
    assert_eq!(process::list(&k.procs).len(), 4);
}

#[test]
fn trouble_with_programs_is_reported() {
    let mut k = kernel(16);
    assert_eq!(
        says(&mut k, "ring3test"),
        format!("{}carga del ELF falló: {}\r\n", console::RING3_LOAD, elf::ERR_NO_SPACE)
    );
    // A root, three tables and one page.
    let mut k = kernel(21);
    assert_eq!(
        says(&mut k, "forktest"),
        format!("{}sin memoria para la pila de usuario\r\n", console::FORK_LOAD)
    );
    let mut k = kernel(22);
    assert_eq!(
        says(&mut k, "waittest"),
        format!("{}fallo mapeando la pila de usuario: {}\r\n", console::WAIT_LOAD, mmu::ERR_NO_FRAME_TABLE)
    );
    assert!(process::list(&k.procs).is_empty());
    let mut k = kernel(96);
    while k.heap.allocate(k.heap_start, 4096, 1).is_some() {}
    assert!(matches!(run(&mut k, "forktest").next, Next::Halt));
}

// --- disks, preemption and signals ---------------------------------------------------

#[test]
fn disk_commands_are_handed_on() {
    let mut k = kernel(64);
    assert_eq!(says(&mut k, "partinfo"), console::NO_DISK);
    assert_eq!(says(&mut k, "ext2ls"), console::EXT2LS_USAGE);
    assert_eq!(says(&mut k, "ext2cat"), console::EXT2CAT_USAGE);
    assert_eq!(says(&mut k, "ext2cat /hello.txt"), console::NO_DISK);
    let r = console::dispatch(&mut k, &programs(), &EQUIPPED, "partinfo");
    assert!(r.out.is_empty() && matches!(r.next, Next::Disk(DiskJob::Partitions)));
    match console::dispatch(&mut k, &programs(), &EQUIPPED, "ext2ls /").next {
        Next::Disk(DiskJob::List(path)) => assert_eq!(path, "/"),
        _ => panic!("nothing is listed"),
    }
    match console::dispatch(&mut k, &programs(), &EQUIPPED, "ext2cat /hello.txt").next {
        Next::Disk(DiskJob::Show(path)) => assert_eq!(path, "/hello.txt"),
        _ => panic!("nothing is shown"),
    }
    for name in ["partinfo", "ext2ls", "ext2cat", "preempttest", "segvtest", "killtest"] {
        assert!(console::HELP.contains(name));
    }
}

#[test]
fn all_of_the_heap_counts() {
    let mut k = kernel(64);
    k.blocks = 1000;
    assert!(says(&mut k, "meminfo").ends_with("heap usado: 1000 bytes\r\n"));
    // Room for one stack, but not for two.
    k.blocks = 0x10_0000 - 2 * STACK_SIZE as u64 + 1;
    let r = run(&mut k, "preempttest");
    assert!(matches!(r.next, Next::Halt));
    assert_eq!(
        String::from_utf8(r.out).unwrap(),
        format!(
            "{}[FATAL] Heap agotado pidiendo {} bytes (align 1)\n",
            console::PREEMPT_LOAD, STACK_SIZE
        )
    );
    assert_eq!(k.heap.used_bytes(), STACK_SIZE as u64);
    let mut k = kernel(64);
    k.blocks = 0x10_0000 - 2 * STACK_SIZE as u64;
    assert!(matches!(run(&mut k, "preempttest").next, Next::Preempt { .. }));
    assert!(says(&mut k, "meminfo").ends_with("heap usado: 1048576 bytes\r\n"));
}

#[test]
fn greedy_tasks_are_started_and_ended() {
    let mut k = kernel(64);
    let r = run(&mut k, "preempttest");
    assert_eq!(r.out, console::PREEMPT_LOAD.as_bytes());
    let first = match r.next {
        Next::Preempt { slots, first, ticks } => {
            assert_eq!(ticks, console::PREEMPT_TICKS);
            assert_eq!(slots.0, k.sched.tasks[1].context.rsp);
            assert_eq!(slots.1, k.sched.tasks[2].context.rsp);
            first as usize
        },
        _ => panic!("no test"),
    };
    assert_eq!((first, k.sched.tasks.len()), (1, 3));
    assert_eq!(k.sched.tasks[1].kernel_stack_top, 0);
    let out = console::end_preempt_test(&mut k, first, (5, 7));
    assert_eq!(
        String::from_utf8(out).unwrap(),
        format!("spin_a: 5 vueltas, spin_b: 7 vueltas\r\n{}", console::PREEMPT_OK)
    );
    assert!(k.sched.tasks[1].state == TaskState::Finished && k.sched.tasks[2].state == TaskState::Finished);
    let out = console::end_preempt_test(&mut k, first, (5, 0));
    assert!(String::from_utf8(out).unwrap().ends_with(console::PREEMPT_FAILED));
}

#[test]
fn programs_for_signals_are_started() {
    let mut k = kernel(64);
    let r = run(&mut k, "segvtest");
    assert!(String::from_utf8(r.out).unwrap().starts_with(console::SEGV_LOAD));
    assert!(matches!(r.next, Next::Turns { turns: 2, report: console::SEGV_BACK, .. }));
    assert!(!k.caps.allows(caps::CAP_PROC_CTL));
    let r = run(&mut k, "killtest");
    assert!(matches!(r.next, Next::Turns { turns: 2, report: console::KILL_BACK, .. }));
    assert!(k.caps.allows(caps::CAP_PROC_CTL));
}

#[test]
fn lines_are_checked_before_they_run() {
    let mut k = kernel(64);
    assert!(console::loads_program("  forktest now"));
    assert!(!console::loads_program("help"));
    assert!(!console::loads_program("   "));
    assert!(audit::line_is_ready(&k, "forktest"));
    k.mem.write(ROOT, 1, 0x4000_0003);
    assert!(!audit::line_is_ready(&k, "forktest"));
    assert!(audit::line_is_ready(&k, "help"));
    assert!(audit::line_is_ready(&k, ""));
}
