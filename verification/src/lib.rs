//! Forge OS kernel core.
//!
//! The logic of the kernel without its hardware: memory, address spaces,
//! processes, system calls, drivers, file systems, network and console. What a
//! device would be told, or would answer, is a plain value here.

mod bits;
pub mod ahci;
pub mod apic;
pub mod audit;
pub mod bytes;
pub mod caps;
pub mod console;
pub mod diskview;
pub mod elf;
pub mod ext2;
pub mod fmt;
pub mod framebuffer;
pub mod gdt;
pub mod heap;
pub mod idt;
pub mod io;
pub mod keyboard;
pub mod lifecycle;
pub mod line;
pub mod mb2;
pub mod mem;
pub mod mmu;
pub mod net;
pub mod pages;
pub mod partinfo;
pub mod pci;
pub mod pic;
pub mod ping;
pub mod pipe;
pub mod pmm;
pub mod preempt;
pub mod process;
pub mod psf;
pub mod ring3;
pub mod rtl8139;
pub mod scheduler;
pub mod serial;
pub mod signal;
pub mod spaces;
pub mod syscall;
pub mod task;
pub mod text;
pub mod user;
pub mod vfs;
