# Forge OS kernel core

A small x86_64 kernel whose logic is verified with Verus.

- `src/` is the verified library. It touches no hardware: physical memory is a
  value (`mem`), and a driver is a step function from what the device answered to
  what it is told next.
  - memory: `mem`, `mb2`, `pmm`, `mmu`, `heap`, `elf`, `user`, `spaces`,
    `pages`, `audit`
  - processes: `process`, `task`, `scheduler`, `preempt`, `signal`, `pipe`,
    `caps`, `ring3`, `syscall`, `lifecycle`
  - machine tables: `gdt`, `idt`, `pic`, `apic`
  - devices: `io`, `serial`, `keyboard`, `framebuffer`, `psf`, `pci`, `ahci`,
    `rtl8139`
  - storage and network: `vfs`, `partinfo`, `ext2`, `diskview`, `net`, `ping`
  - console: `fmt`, `text`, `line`, `console`
- `tests/` runs the library on concrete values.
- `app/` is the code around it: port access, assembly stubs, the boot path and
  the console loop.

Functions named `law_..` state properties that span several operations, for
example that system calls keep all address spaces apart (`lifecycle`), that a
copied address space translates as its source does (`mmu`), that no two of its
pages share a frame (`pages`), that no page of a loaded program can be both
written and executed unless a segment asks for it (`elf`), or that a read gives
back what was written (`vfs`).

Where an operation needs well-formed page tables, `audit` tells at run time
whether they are; `app/` asks it before each system call and each console line.

Trusted: four wrappers of functions of the standard library, all in `text`.
