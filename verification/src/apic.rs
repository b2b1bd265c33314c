//! The local interrupt controller of the processor and its timer.
use vstd::prelude::*;
use crate::fmt;
use crate::io::RegWrite;

verus! {

pub const REG_EOI: u64 = 0xB0;

pub const REG_SPURIOUS: u64 = 0xF0;

pub const REG_LVT_TIMER: u64 = 0x320;

pub const REG_TIMER_INITIAL_COUNT: u64 = 0x380;

pub const REG_TIMER_DIVIDE: u64 = 0x3E0;

/// Outside of the vectors of exceptions and of the 8259 controllers.
pub const TIMER_VECTOR: u8 = 0x40;

/// Bits 12 to 35 of the base register: the physical address of the registers.
pub const BASE_MASK: u64 = 0xF_FFFF_F000;

/// Bit of the base register that switches the controller on.
pub const GLOBAL_ENABLE: u64 = 0x800;

/// Software enable, with vector 255 for spurious interrupts.
pub const SPURIOUS_ENABLE: u32 = 0x1FF;

/// Divide the timer clock by one.
pub const DIVIDE_BY_ONE: u32 = 0b1011;

/// Timer entry: periodic mode, on [`TIMER_VECTOR`].
pub const LVT_PERIODIC: u32 = 0x2_0040;

/// The controller: where its registers are, and how often its timer fired.
pub struct LocalApic {
    pub base: u64,
    pub ticks: u64,
}

proof fn lemma_base(msr: u64)
    by (bit_vector)
    ensures
        msr & 0xF_FFFF_F000 <= 0xF_FFFF_F000,
        (msr & 0xF_FFFF_F000) % 4096 == 0,
{
}

impl LocalApic {
    pub open spec fn wf(&self) -> bool {
        self.base <= BASE_MASK && self.base % 4096 == 0
    }

    /// Switches the controller on. `base_msr` is the current value of the base
    /// register; the result holds its new value and the one register to write.
    pub fn init(base_msr: u64) -> (r: (Self, u64, RegWrite))
        ensures
            r.0.wf(),
            r.0.base == base_msr & BASE_MASK,
            r.0.ticks == 0,
            r.1 == base_msr | GLOBAL_ENABLE,
            r.2.addr == r.0.base + REG_SPURIOUS,
            r.2.value == SPURIOUS_ENABLE,
    {
        proof {
            lemma_base(base_msr);
        }
        let base = base_msr & BASE_MASK;
        (
            LocalApic { base, ticks: 0 },
            base_msr | GLOBAL_ENABLE,
            RegWrite { addr: base + REG_SPURIOUS, value: SPURIOUS_ENABLE },
        )
    }

    /// Starts the timer: it fires every `initial_count` of its ticks. The count
    /// is not calibrated against a clock.
    pub fn start_periodic_timer(&self, initial_count: u32) -> (r: Vec<RegWrite>)
        requires
            self.wf(),
        ensures
            r@ == seq![
                RegWrite {
                    addr: (self.base + REG_TIMER_DIVIDE) as u64,
                    value: DIVIDE_BY_ONE,
                },
                RegWrite { addr: (self.base + REG_LVT_TIMER) as u64, value: LVT_PERIODIC },
                RegWrite {
                    addr: (self.base + REG_TIMER_INITIAL_COUNT) as u64,
                    value: initial_count,
                },
            ],
    {
        let mut out: Vec<RegWrite> = Vec::new();
        out.push(RegWrite { addr: self.base + REG_TIMER_DIVIDE, value: DIVIDE_BY_ONE });
        out.push(RegWrite { addr: self.base + REG_LVT_TIMER, value: LVT_PERIODIC });
        out.push(RegWrite { addr: self.base + REG_TIMER_INITIAL_COUNT, value: initial_count });
        assert(out@ =~= seq![
            RegWrite { addr: (self.base + REG_TIMER_DIVIDE) as u64, value: DIVIDE_BY_ONE },
            RegWrite { addr: (self.base + REG_LVT_TIMER) as u64, value: LVT_PERIODIC },
            RegWrite {
                addr: (self.base + REG_TIMER_INITIAL_COUNT) as u64,
                value: initial_count,
            },
        ]);
        out
    }

    /// What is logged once the controller is on.
    pub fn enabled_report(&self) -> (r: Vec<u8>)
        ensures
            r@ == fmt::text("[apic] Local APIC habilitado, base física 0x"@) + fmt::hex(
                self.base as nat,
            ) + fmt::text("\n"@),
    {
        let mut out: Vec<u8> = Vec::new();
        fmt::push_text(&mut out, "[apic] Local APIC habilitado, base física 0x");
        fmt::push_hex(&mut out, self.base);
        fmt::push_text(&mut out, "\n");
        assert(out@ =~= fmt::text("[apic] Local APIC habilitado, base física 0x"@) + fmt::hex(
            self.base as nat,
        ) + fmt::text("\n"@));
        out
    }

    /// What is logged once the timer runs.
    pub fn timer_report(initial_count: u32) -> (r: Vec<u8>)
        ensures
            r@ == fmt::text("[apic] timer periódico armado, initial_count="@) + fmt::decimal(
                initial_count as nat,
            ) + fmt::text(" (sin calibrar)\n"@),
    {
        let mut out: Vec<u8> = Vec::new();
        fmt::push_text(&mut out, "[apic] timer periódico armado, initial_count=");
        fmt::push_decimal(&mut out, initial_count as u64);
        fmt::push_text(&mut out, " (sin calibrar)\n");
        assert(out@ =~= fmt::text("[apic] timer periódico armado, initial_count="@)
            + fmt::decimal(initial_count as nat) + fmt::text(" (sin calibrar)\n"@));
        out
    }

    pub fn tick_count(&self) -> (r: u64)
        ensures
            r == self.ticks,
    {
        self.ticks
    }

    /// Counts a tick.
    pub fn note_tick(&mut self)
        ensures
            final(self).base == old(self).base,
            final(self).ticks == (if old(self).ticks == u64::MAX {
                0
            } else {
                (old(self).ticks + 1) as u64
            }),
    {
        self.ticks = self.ticks.wrapping_add(1);
    }

    /// The write that acknowledges an interrupt.
    pub fn send_eoi(&self) -> (r: RegWrite)
        requires
            self.wf(),
        ensures
            r.addr == self.base + REG_EOI,
            r.value == 0,
    {
        RegWrite { addr: self.base + REG_EOI, value: 0 }
    }

    /// The timer fired: count it and acknowledge it.
    pub fn timer_interrupt_handler(&mut self) -> (r: RegWrite)
        requires
            old(self).wf(),
        ensures
            final(self).wf(),
            final(self).base == old(self).base,
            final(self).ticks == (if old(self).ticks == u64::MAX {
                0
            } else {
                (old(self).ticks + 1) as u64
            }),
            r.addr == old(self).base + REG_EOI,
            r.value == 0,
    {
        self.note_tick();
        self.send_eoi()
    }
}

} // verus!
