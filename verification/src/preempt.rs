//! Preemption by the timer.
//!
//! The timer always counts and acknowledges its interrupt. It takes the turn
//! away from the running task only where that was switched on and where it
//! interrupted the kernel: user code is never taken off the processor by it.
use vstd::prelude::*;
use crate::apic::LocalApic;
use crate::io::RegWrite;
use crate::scheduler::{self, Scheduler};

verus! {

/// Whether preemption is on, and how far the two demonstration tasks came.
pub struct Preemption {
    pub enabled: bool,
    pub spin_a: u64,
    pub spin_b: u64,
}

impl Preemption {
    /// Off.
    pub fn new() -> (r: Self)
        ensures
            r == (Preemption { enabled: false, spin_a: 0, spin_b: 0 }),
    {
        Preemption { enabled: false, spin_a: 0, spin_b: 0 }
    }

    pub fn set_enabled(&mut self, enabled: bool)
        ensures
            *final(self) == (Preemption { enabled, ..*old(self) }),
    {
        self.enabled = enabled;
    }

    /// How often each of the two demonstration tasks went round.
    pub fn spin_counts(&self) -> (r: (u64, u64))
        ensures
            r == (self.spin_a, self.spin_b),
    {
        (self.spin_a, self.spin_b)
    }

    /// One round of the first demonstration task.
    pub fn spin_a(&mut self)
        ensures
            final(self).spin_a == (if old(self).spin_a == u64::MAX {
                0
            } else {
                (old(self).spin_a + 1) as u64
            }),
            final(self).spin_b == old(self).spin_b,
            final(self).enabled == old(self).enabled,
    {
        self.spin_a = self.spin_a.wrapping_add(1);
    }

    /// One round of the second demonstration task.
    pub fn spin_b(&mut self)
        ensures
            final(self).spin_b == (if old(self).spin_b == u64::MAX {
                0
            } else {
                (old(self).spin_b + 1) as u64
            }),
            final(self).spin_a == old(self).spin_a,
            final(self).enabled == old(self).enabled,
    {
        self.spin_b = self.spin_b.wrapping_add(1);
    }
}

/// What follows a tick of the timer: the write that acknowledges it, and
/// whether interrupts are to be let in again and the turn passed on.
#[derive(Clone, Copy, PartialEq, Eq, Debug, Structural)]
pub struct Tick {
    pub eoi: RegWrite,
    pub preempt: bool,
}

/// The timer interrupted code with this code segment.
pub fn timer_tick(pre: &Preemption, apic: &mut LocalApic, code_segment: u64) -> (r: Tick)
    requires
        old(apic).wf(),
    ensures
        final(apic).wf(),
        final(apic).base == old(apic).base,
        final(apic).ticks == (if old(apic).ticks == u64::MAX {
            0
        } else {
            (old(apic).ticks + 1) as u64
        }),
        r.eoi.addr == old(apic).base + crate::apic::REG_EOI,
        r.eoi.value == 0,
        r.preempt == (pre.enabled && code_segment % 4 == 0),
{
    let eoi = apic.timer_interrupt_handler();
    if code_segment % 4 != 0 {
        timer_tick_ring3_eoi_only(eoi)
    } else {
        timer_tick_ring0(pre, eoi)
    }
}

fn timer_tick_ring0(pre: &Preemption, eoi: RegWrite) -> (r: Tick)
    ensures
        r == (Tick { eoi, preempt: pre.enabled }),
{
    Tick { eoi, preempt: pre.enabled }
}

fn timer_tick_ring3_eoi_only(eoi: RegWrite) -> (r: Tick)
    ensures
        r == (Tick { eoi, preempt: false }),
{
    Tick { eoi, preempt: false }
}

/// Adds the two demonstration tasks, which never give up their turn by
/// themselves. Gives their ids.
pub fn spawn_spin_tasks(
    sched: &mut Scheduler,
    stack_a: u64,
    stack_b: u64,
) -> (r: (u64, u64))
    requires
        old(sched).wf(),
        stack_a + crate::task::STACK_SIZE <= u64::MAX,
        stack_b + crate::task::STACK_SIZE <= u64::MAX,
    ensures
        final(sched).wf(),
        final(sched).current == old(sched).current,
        r.0 == old(sched).tasks@.len(),
        r.1 == old(sched).tasks@.len() + 1,
        final(sched).tasks@ == old(sched).tasks@.push(
            scheduler::kernel_thread(r.0, stack_a),
        ).push(scheduler::kernel_thread(r.1, stack_b)),
{
    let a = scheduler::spawn(sched, stack_a);
    let b = scheduler::spawn(sched, stack_b);
    (a, b)
}

} // verus!
