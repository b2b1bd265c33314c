//! The way into ring 3: the frame that an interrupt return takes.
use vstd::prelude::*;
use crate::gdt;

verus! {

/// Interrupts on; bit 1 is always set.
pub const USER_RFLAGS: u64 = 0x202;

/// The values for `iretq`, in the order in which they are popped, and the value
/// of `rax` if it matters.
#[derive(Clone, Copy)]
pub struct IretFrame {
    pub rip: u64,
    pub cs: u64,
    pub rflags: u64,
    pub rsp: u64,
    pub ss: u64,
    pub rax: Option<u64>,
}

/// The frame that starts user code at `entry` on the stack `user_stack_top`.
pub open spec fn user_frame(entry: u64, user_stack_top: u64, rax: Option<u64>) -> IretFrame {
    IretFrame {
        rip: entry,
        cs: gdt::USER_CODE_SELECTOR as u64,
        rflags: USER_RFLAGS,
        rsp: user_stack_top,
        ss: gdt::USER_DATA_SELECTOR as u64,
        rax,
    }
}

pub fn enter_ring3(entry: u64, user_stack_top: u64) -> (r: IretFrame)
    ensures
        r == user_frame(entry, user_stack_top, None),
{
    IretFrame {
        rip: entry,
        cs: gdt::USER_CODE_SELECTOR as u64,
        rflags: USER_RFLAGS,
        rsp: user_stack_top,
        ss: gdt::USER_DATA_SELECTOR as u64,
        rax: None,
    }
}

/// As [`enter_ring3`], with a value for `rax`: the child of a fork starts with
/// 0 there. All other general registers are unspecified.
pub fn enter_ring3_with_rax(entry: u64, user_stack_top: u64, rax_value: u64) -> (r: IretFrame)
    ensures
        r == user_frame(entry, user_stack_top, Some(rax_value)),
{
    IretFrame { rax: Some(rax_value), ..enter_ring3(entry, user_stack_top) }
}

/// User code runs with the lowest privilege and with interrupts on.
pub proof fn law_user_frame_is_unprivileged(entry: u64, stack: u64, rax: Option<u64>)
    ensures
        user_frame(entry, stack, rax).cs % 4 == 3,
        user_frame(entry, stack, rax).ss % 4 == 3,
        (user_frame(entry, stack, rax).rflags / 0x200) % 2 == 1,
{
}

/// Ring 3 is entered at the address and with the stack that were asked for, with
/// selectors of ring 3 and with interrupts on; no other flag is set but the one
/// that always is.
pub proof fn law_frame_leads_to_ring3(entry: u64, user_stack_top: u64, rax: Option<u64>)
    ensures
        ({
            let f = user_frame(entry, user_stack_top, rax);
            &&& f.rip == entry
            &&& f.rsp == user_stack_top
            &&& f.rax == rax
            &&& f.cs % 4 == 3
            &&& f.ss % 4 == 3
            &&& f.cs / 8 == 4
            &&& f.ss / 8 == 3
            &&& f.rflags == 0x200 + 0x2
        }),
{
}

} // verus!
