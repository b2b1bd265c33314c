//! The interrupt table, and what each exception leads to.
use vstd::prelude::*;
use crate::fmt;
use crate::gdt;

verus! {

/// What the processor pushes when an interrupt arrives.
#[derive(Clone, Copy)]
pub struct InterruptStackFrame {
    pub instruction_pointer: u64,
    pub code_segment: u64,
    pub cpu_flags: u64,
    pub stack_pointer: u64,
    pub stack_segment: u64,
}

/// An entry of the interrupt table. The address of the handler is in three
/// parts.
#[derive(Clone, Copy)]
pub struct IdtEntry {
    pub offset_low: u16,
    pub selector: u16,
    pub ist: u8,
    pub type_attr: u8,
    pub offset_mid: u16,
    pub offset_high: u32,
}

/// Present, ring 0, interrupt gate.
pub const INTERRUPT_GATE: u8 = 0x8E;

pub const IDT_LEN: usize = 256;

/// The entry of a vector without handler.
pub open spec fn missing_entry() -> IdtEntry {
    IdtEntry {
        offset_low: 0,
        selector: 0,
        ist: 0,
        type_attr: 0,
        offset_mid: 0,
        offset_high: 0,
    }
}

/// The entry that sends a vector to `handler`, on stack `ist` (0: keep the
/// current one).
pub open spec fn gate(handler: u64, ist: u8) -> IdtEntry {
    IdtEntry {
        offset_low: (handler % 0x1_0000) as u16,
        selector: gdt::KERNEL_CODE_SELECTOR,
        ist,
        type_attr: INTERRUPT_GATE,
        offset_mid: ((handler / 0x1_0000) % 0x1_0000) as u16,
        offset_high: (handler / 0x1_0000_0000) as u32,
    }
}

impl IdtEntry {
    pub fn missing() -> (r: Self)
        ensures
            r == missing_entry(),
    {
        IdtEntry {
            offset_low: 0,
            selector: 0,
            ist: 0,
            type_attr: 0,
            offset_mid: 0,
            offset_high: 0,
        }
    }

    pub fn set_handler(&mut self, handler_addr: u64, ist: u8)
        ensures
            *final(self) == gate(handler_addr, ist),
    {
        self.offset_low = (handler_addr % 0x1_0000) as u16;
        self.offset_mid = ((handler_addr / 0x1_0000) % 0x1_0000) as u16;
        self.offset_high = (handler_addr / 0x1_0000_0000) as u32;
        self.selector = gdt::KERNEL_CODE_SELECTOR;
        self.ist = ist;
        self.type_attr = INTERRUPT_GATE;
    }
}

/// The three parts of a gate make up the address of its handler.
pub proof fn law_gate_holds_address(handler: u64, ist: u8)
    ensures
        ({
            let g = gate(handler, ist);
            g.offset_low + 0x1_0000 * g.offset_mid + 0x1_0000_0000 * g.offset_high == handler
        }),
{
}

/// Addresses of the handlers.
#[derive(Clone, Copy)]
pub struct Handlers {
    pub divide_error: u64,
    pub breakpoint: u64,
    pub invalid_opcode: u64,
    pub double_fault: u64,
    pub general_protection_fault: u64,
    pub page_fault: u64,
    pub timer: u64,
    pub keyboard: u64,
}

pub const VECTOR_DIVIDE_ERROR: u8 = 0;

pub const VECTOR_BREAKPOINT: u8 = 3;

pub const VECTOR_INVALID_OPCODE: u8 = 6;

pub const VECTOR_DOUBLE_FAULT: u8 = 8;

pub const VECTOR_GENERAL_PROTECTION: u8 = 13;

pub const VECTOR_PAGE_FAULT: u8 = 14;

/// Interrupt 1 behind the first controller.
pub const VECTOR_KEYBOARD: u8 = 33;

/// The entry of each vector. Double faults get a stack of their own.
pub open spec fn entry_of(h: Handlers, vector: int) -> IdtEntry {
    if vector == VECTOR_DIVIDE_ERROR {
        gate(h.divide_error, 0)
    } else if vector == VECTOR_BREAKPOINT {
        gate(h.breakpoint, 0)
    } else if vector == VECTOR_INVALID_OPCODE {
        gate(h.invalid_opcode, 0)
    } else if vector == VECTOR_DOUBLE_FAULT {
        gate(h.double_fault, 1)
    } else if vector == VECTOR_GENERAL_PROTECTION {
        gate(h.general_protection_fault, 0)
    } else if vector == VECTOR_PAGE_FAULT {
        gate(h.page_fault, 0)
    } else if vector == crate::apic::TIMER_VECTOR {
        gate(h.timer, 0)
    } else if vector == VECTOR_KEYBOARD {
        gate(h.keyboard, 0)
    } else {
        missing_entry()
    }
}

fn set(table: &mut Vec<IdtEntry>, vector: u8, handler: u64, ist: u8)
    requires
        old(table)@.len() == IDT_LEN,
    ensures
        final(table)@ == old(table)@.update(vector as int, gate(handler, ist)),
{
    let mut e = table[vector as usize];
    e.set_handler(handler, ist);
    table.set(vector as usize, e);
}

/// The interrupt table.
pub fn init(h: Handlers) -> (r: Vec<IdtEntry>)
    ensures
        r@.len() == IDT_LEN,
        forall|v: int| 0 <= v < IDT_LEN ==> #[trigger] r@[v] == entry_of(h, v),
{
    let mut table: Vec<IdtEntry> = Vec::new();
    let mut i: usize = 0;
    while i < IDT_LEN
        invariant
            i <= IDT_LEN,
            table@.len() == i,
            forall|v: int| 0 <= v < i ==> #[trigger] table@[v] == missing_entry(),
        decreases IDT_LEN - i,
    {
        table.push(IdtEntry::missing());
        i += 1;
    }
    set(&mut table, VECTOR_DIVIDE_ERROR, h.divide_error, 0);
    set(&mut table, VECTOR_BREAKPOINT, h.breakpoint, 0);
    set(&mut table, VECTOR_INVALID_OPCODE, h.invalid_opcode, 0);
    set(&mut table, VECTOR_DOUBLE_FAULT, h.double_fault, 1);
    set(&mut table, VECTOR_GENERAL_PROTECTION, h.general_protection_fault, 0);
    set(&mut table, VECTOR_PAGE_FAULT, h.page_fault, 0);
    set(&mut table, crate::apic::TIMER_VECTOR, h.timer, 0);
    set(&mut table, crate::pic::PIC1_OFFSET + crate::keyboard::IRQ, h.keyboard, 0);
    table
}

/// What follows an exception.
#[derive(Clone, Copy, PartialEq, Eq, Debug, Structural)]
pub enum ExceptionAction {
    /// Go on where it happened.
    Resume,
    /// Terminate the running process with this signal, let interrupts in again,
    /// and give the turn to another task.
    KillCurrent(u32),
    /// Stop the machine.
    Halt,
}

/// What follows the exception on `vector`. A breakpoint goes on. A page fault
/// out of ring 3 is the fault of the process, which is terminated; out of ring
/// 0 it is a fault of the kernel. Everything else stops the machine.
pub fn exception(vector: u8, frame: &InterruptStackFrame) -> (r: ExceptionAction)
    ensures
        r == if vector == VECTOR_BREAKPOINT {
            ExceptionAction::Resume
        } else if vector == VECTOR_PAGE_FAULT && frame.code_segment % 4 == 3 {
            ExceptionAction::KillCurrent(crate::signal::SIGSEGV)
        } else {
            ExceptionAction::Halt
        },
{
    if vector == VECTOR_BREAKPOINT {
        ExceptionAction::Resume
    } else if vector == VECTOR_PAGE_FAULT {
        page_fault(frame)
    } else {
        ExceptionAction::Halt
    }
}

/// See [`exception`]. The low two bits of the code segment are the privilege
/// level of what was interrupted.
fn page_fault(frame: &InterruptStackFrame) -> (r: ExceptionAction)
    ensures
        r == if frame.code_segment % 4 == 3 {
            ExceptionAction::KillCurrent(crate::signal::SIGSEGV)
        } else {
            ExceptionAction::Halt
        },
{
    let from_ring3 = frame.code_segment % 4 == 3;
    if from_ring3 {
        ExceptionAction::KillCurrent(crate::signal::SIGSEGV)
    } else {
        ExceptionAction::Halt
    }
}

pub const DIVIDE_ERROR: &'static str = "[EXCEPTION] Divide error (#DE)\n";

/// What is logged of the exception on `vector`. `address` is the one that a page
/// fault was about.
pub open spec fn exception_text(
    vector: u8,
    error_code: u64,
    address: u64,
    frame: InterruptStackFrame,
) -> Seq<u8> {
    let rip = fmt::hex(frame.instruction_pointer as nat);
    let code = fmt::decimal(error_code as nat);
    if vector == VECTOR_DIVIDE_ERROR {
        fmt::text(DIVIDE_ERROR@)
    } else if vector == VECTOR_BREAKPOINT {
        fmt::text("[EXCEPTION] Breakpoint (#BP) en rip=0x"@) + rip + fmt::text(
            " — continuando\n"@,
        )
    } else if vector == VECTOR_INVALID_OPCODE {
        fmt::text("[EXCEPTION] Invalid opcode (#UD) en rip=0x"@) + rip + fmt::text("\n"@)
    } else if vector == VECTOR_DOUBLE_FAULT {
        fmt::text("[FATAL] Double fault (#DF, error_code="@) + code + fmt::text(
            ") — pila IST, sin triple fault\n"@,
        )
    } else if vector == VECTOR_GENERAL_PROTECTION {
        fmt::text("[EXCEPTION] GPF (error_code="@) + code + fmt::text(") en rip=0x"@) + rip
            + fmt::text("\n"@)
    } else if vector == VECTOR_PAGE_FAULT {
        fmt::text("[EXCEPTION] Page fault en dirección=0x"@) + fmt::hex(address as nat)
            + fmt::text(" (error_code="@) + code + fmt::text(", rip=0x"@) + rip + fmt::text(
            ", ring3="@,
        ) + fmt::truth(frame.code_segment % 4 == 3) + fmt::text(")\n"@)
    } else {
        Seq::empty()
    }
}

/// What is logged of the exception on `vector`.
pub fn exception_report(
    vector: u8,
    error_code: u64,
    address: u64,
    frame: &InterruptStackFrame,
) -> (r: Vec<u8>)
    ensures
        r@ == exception_text(vector, error_code, address, *frame),
{
    let mut out: Vec<u8> = Vec::new();
    let rip = frame.instruction_pointer;
    if vector == VECTOR_DIVIDE_ERROR {
        fmt::push_text(&mut out, DIVIDE_ERROR);
    } else if vector == VECTOR_BREAKPOINT {
        fmt::push_text(&mut out, "[EXCEPTION] Breakpoint (#BP) en rip=0x");
        fmt::push_hex(&mut out, rip);
        fmt::push_text(&mut out, " — continuando\n");
    } else if vector == VECTOR_INVALID_OPCODE {
        fmt::push_text(&mut out, "[EXCEPTION] Invalid opcode (#UD) en rip=0x");
        fmt::push_hex(&mut out, rip);
        fmt::push_text(&mut out, "\n");
    } else if vector == VECTOR_DOUBLE_FAULT {
        fmt::push_text(&mut out, "[FATAL] Double fault (#DF, error_code=");
        fmt::push_decimal(&mut out, error_code);
        fmt::push_text(&mut out, ") — pila IST, sin triple fault\n");
    } else if vector == VECTOR_GENERAL_PROTECTION {
        fmt::push_text(&mut out, "[EXCEPTION] GPF (error_code=");
        fmt::push_decimal(&mut out, error_code);
        fmt::push_text(&mut out, ") en rip=0x");
        fmt::push_hex(&mut out, rip);
        fmt::push_text(&mut out, "\n");
    } else if vector == VECTOR_PAGE_FAULT {
        fmt::push_text(&mut out, "[EXCEPTION] Page fault en dirección=0x");
        fmt::push_hex(&mut out, address);
        fmt::push_text(&mut out, " (error_code=");
        fmt::push_decimal(&mut out, error_code);
        fmt::push_text(&mut out, ", rip=0x");
        fmt::push_hex(&mut out, rip);
        fmt::push_text(&mut out, ", ring3=");
        fmt::push_truth(&mut out, frame.code_segment % 4 == 3);
        fmt::push_text(&mut out, ")\n");
    }
    assert(out@ =~= exception_text(vector, error_code, address, *frame));
    out
}

/// Each handler stands behind the vector that the processor and the interrupt
/// controllers use for it, as a present interrupt gate of ring 0; the double
/// fault alone has a stack of its own. No other vector has a handler.
pub proof fn law_handlers_stand_behind_their_vectors(h: Handlers, v: int)
    requires
        0 <= v < 256,
    ensures
        ({
            let e = entry_of(h, v);
            let address = e.offset_low + 0x1_0000 * e.offset_mid + 0x1_0000_0000 * e.offset_high;
            &&& v == 0 ==> address == h.divide_error
            &&& v == 3 ==> address == h.breakpoint
            &&& v == 6 ==> address == h.invalid_opcode
            &&& v == 8 ==> address == h.double_fault
            &&& v == 13 ==> address == h.general_protection_fault
            &&& v == 14 ==> address == h.page_fault
            &&& v == 0x40 ==> address == h.timer
            &&& v == 33 ==> address == h.keyboard
            &&& if v == 0 || v == 3 || v == 6 || v == 8 || v == 13 || v == 14 || v == 0x40 || v
                == 33 {
                &&& e.type_attr / 0x80 == 1
                &&& e.type_attr / 0x20 % 4 == 0
                &&& e.type_attr % 0x20 == 0xE
                &&& e.selector == 8
                &&& e.ist == if v == 8 {
                    1u8
                } else {
                    0
                }
            } else {
                e.type_attr / 0x80 == 0
            }
        }),
{
    law_gate_holds_address(h.divide_error, 0);
    law_gate_holds_address(h.breakpoint, 0);
    law_gate_holds_address(h.invalid_opcode, 0);
    law_gate_holds_address(h.double_fault, 1);
    law_gate_holds_address(h.general_protection_fault, 0);
    law_gate_holds_address(h.page_fault, 0);
    law_gate_holds_address(h.timer, 0);
    law_gate_holds_address(h.keyboard, 0);
}

} // verus!
