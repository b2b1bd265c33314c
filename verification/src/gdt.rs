//! Segment descriptors and the task state segment.
//!
//! Segmentation is flat in long mode; what matters are the privilege levels of
//! the selectors and the stacks in the task state segment: one for double
//! faults, and one (RSP0) for interrupts that arrive in ring 3.
use vstd::prelude::*;

verus! {

pub const KERNEL_CODE_SELECTOR: u16 = 0x08;

pub const KERNEL_DATA_SELECTOR: u16 = 0x10;

/// Entry at 0x18, for ring 3.
pub const USER_DATA_SELECTOR: u16 = 0x1B;

/// Entry at 0x20, for ring 3.
pub const USER_CODE_SELECTOR: u16 = 0x23;

pub const TSS_SELECTOR: u16 = 0x28;

/// Present, ring 0, executable, readable, long mode.
pub const KERNEL_CODE: u64 = 0x00AF_9A00_0000_FFFF;

/// Present, ring 0, writable.
pub const KERNEL_DATA: u64 = 0x00CF_9200_0000_FFFF;

/// As [`KERNEL_DATA`], for ring 3.
pub const USER_DATA: u64 = 0x00CF_F200_0000_FFFF;

/// As [`KERNEL_CODE`], for ring 3.
pub const USER_CODE: u64 = 0x00AF_FA00_0000_FFFF;

/// Index of the double fault stack in [`Tss::ist`]. The interrupt table counts
/// from one: there it is 1.
pub const DOUBLE_FAULT_IST_INDEX: usize = 0;

pub const DOUBLE_FAULT_STACK_SIZE: u64 = 0x4000;

pub const RSP0_STACK_SIZE: u64 = 0x4000;

/// Bytes of a task state segment.
pub const TSS_SIZE: u64 = 104;

/// The fields of the task state segment that the kernel uses.
pub struct Tss {
    pub rsp: [u64; 3],
    pub ist: [u64; 7],
    pub iomap_base: u16,
}

impl Tss {
    /// All stacks zero, and no I/O permission map.
    pub fn new() -> (r: Self)
        ensures
            r.rsp@ == seq![0u64, 0, 0],
            r.ist@ == seq![0u64, 0, 0, 0, 0, 0, 0],
            r.iomap_base == TSS_SIZE,
    {
        let r = Tss { rsp: [0, 0, 0], ist: [0, 0, 0, 0, 0, 0, 0], iomap_base: TSS_SIZE as u16 };
        assert(r.rsp@ =~= seq![0u64, 0, 0]);
        assert(r.ist@ =~= seq![0u64, 0, 0, 0, 0, 0, 0]);
        r
    }
}

/// First half of the descriptor of a task state segment at `addr`: limit,
/// address bits 0 to 23, type "available, present", address bits 24 to 31.
pub open spec fn tss_low(addr: int) -> int {
    (TSS_SIZE - 1) + 0x1_0000 * (addr % 0x100_0000) + 0x89 * 0x100_0000_0000 + 0x100_0000_0000_0000
        * ((addr / 0x100_0000) % 0x100)
}

/// Second half: address bits 32 to 63.
pub open spec fn tss_high(addr: int) -> int {
    addr / 0x1_0000_0000
}

/// The segment table for a task state segment at `addr`.
pub open spec fn descriptors(addr: int) -> Seq<u64> {
    seq![
        0u64,
        KERNEL_CODE,
        KERNEL_DATA,
        USER_DATA,
        USER_CODE,
        tss_low(addr) as u64,
        tss_high(addr) as u64,
    ]
}

/// The task state segment and the segment table, given the address that the
/// former will have and the two stacks.
pub fn init(tss_addr: u64, double_fault_stack: u64, rsp0_stack: u64) -> (r: (Tss, Vec<u64>))
    requires
        double_fault_stack + DOUBLE_FAULT_STACK_SIZE <= u64::MAX,
        rsp0_stack + RSP0_STACK_SIZE <= u64::MAX,
    ensures
        r.0.rsp@ == seq![(rsp0_stack + RSP0_STACK_SIZE) as u64, 0, 0],
        r.0.ist@ == seq![
            (double_fault_stack + DOUBLE_FAULT_STACK_SIZE) as u64,
            0,
            0,
            0,
            0,
            0,
            0,
        ],
        r.0.iomap_base == TSS_SIZE,
        r.1@ == descriptors(tss_addr as int),
{
    let mut tss = Tss::new();
    tss.ist[DOUBLE_FAULT_IST_INDEX] = double_fault_stack + DOUBLE_FAULT_STACK_SIZE;
    tss.rsp[0] = rsp0_stack + RSP0_STACK_SIZE;
    let low = (TSS_SIZE - 1) + 0x1_0000 * (tss_addr % 0x100_0000) + 0x89 * 0x100_0000_0000
        + 0x100_0000_0000_0000 * ((tss_addr / 0x100_0000) % 0x100);
    let high = tss_addr / 0x1_0000_0000;
    let mut table: Vec<u64> = Vec::new();
    table.push(0);
    table.push(KERNEL_CODE);
    table.push(KERNEL_DATA);
    table.push(USER_DATA);
    table.push(USER_CODE);
    table.push(low);
    table.push(high);
    assert(table@ =~= descriptors(tss_addr as int));
    assert(tss.rsp@ =~= seq![(rsp0_stack + RSP0_STACK_SIZE) as u64, 0, 0]);
    assert(tss.ist@ =~= seq![
        (double_fault_stack + DOUBLE_FAULT_STACK_SIZE) as u64,
        0,
        0,
        0,
        0,
        0,
        0,
    ]);
    (tss, table)
}

/// Sets the stack that the processor loads when an interrupt arrives in ring 3.
pub fn set_rsp0(tss: &mut Tss, top: u64)
    ensures
        final(tss).rsp@ == old(tss).rsp@.update(0, top),
        final(tss).ist@ == old(tss).ist@,
        final(tss).iomap_base == old(tss).iomap_base,
{
    tss.rsp[0] = top;
}

/// The processor finds the task state segment where it is: the parts of the
/// address in the descriptor make up the address.
pub proof fn law_descriptor_holds_address(addr: u64)
    ensures
        ({
            let low = tss_low(addr as int);
            let high = tss_high(addr as int);
            &&& 0 <= low <= u64::MAX
            &&& 0 <= high <= u32::MAX
            &&& low % 0x1_0000 == TSS_SIZE - 1
            &&& (low / 0x100_0000_0000) % 0x100 == 0x89
            &&& (low / 0x1_0000) % 0x100_0000 + 0x100_0000 * (low / 0x100_0000_0000_0000)
                + 0x1_0000_0000 * high == addr
        }),
{
    let a = addr as int;
    lemma_tss_fields(a % 0x100_0000, (a / 0x100_0000) % 0x100);
    lemma_address_parts(a);
}

proof fn lemma_tss_fields(a0: int, a1: int)
    requires
        0 <= a0 < 0x100_0000,
        0 <= a1 < 0x100,
    ensures
        ({
            let low = 103 + 0x1_0000 * a0 + 0x89 * 0x100_0000_0000 + 0x100_0000_0000_0000 * a1;
            &&& 0 <= low <= u64::MAX
            &&& low % 0x1_0000 == 103
            &&& low / 0x1_0000 == a0 + 0x100_0000 * (0x89 + 0x1_0000 * a1)
            &&& (low / 0x1_0000) % 0x100_0000 == a0
            &&& low / 0x100_0000_0000 == 0x89 + 0x1_0000 * a1
            &&& (low / 0x100_0000_0000) % 0x100 == 0x89
            &&& low / 0x100_0000_0000_0000 == a1
        }),
{
    let low = 103 + 0x1_0000 * a0 + 0x89 * 0x100_0000_0000 + 0x100_0000_0000_0000 * a1;
    assert(low / 0x1_0000 == a0 + 0x100_0000 * (0x89 + 0x1_0000 * a1));
    let b = 0x89 + 0x1_0000 * a1;
    assert((a0 + 0x100_0000 * b) % 0x100_0000 == a0);
}

proof fn lemma_address_parts(a: int)
    requires
        0 <= a <= u64::MAX,
    ensures
        a % 0x100_0000 + 0x100_0000 * ((a / 0x100_0000) % 0x100) + 0x1_0000_0000 * (a
            / 0x1_0000_0000) == a,
{
    let b = a / 0x100_0000;
    assert(a / 0x1_0000_0000 == b / 0x100);
}

/// `sysret` takes the selectors 8 and 16 after a common base: the order of the
/// entries fits.
pub proof fn law_selectors_fit_sysret()
    ensures
        USER_DATA_SELECTOR - 3 == KERNEL_DATA_SELECTOR + 8,
        USER_CODE_SELECTOR - 3 == KERNEL_DATA_SELECTOR + 16,
{
}

/// The segments behind the selectors: all are present; code can be executed and
/// is of 64 bits, data cannot and can be written; those of the kernel are of ring
/// 0 and those of the user of ring 3.
pub proof fn law_segments_are_of_their_rings(addr: int)
    ensures
        ({
            let d = descriptors(addr);
            let access = |selector: u16| d[selector as int / 8] / 0x100_0000_0000 % 0x100;
            &&& d[0] == 0
            &&& forall|s: u16|
                s == KERNEL_CODE_SELECTOR || s == KERNEL_DATA_SELECTOR || s == USER_CODE_SELECTOR || s
                    == USER_DATA_SELECTOR ==> #[trigger] access(s) / 0x80 == 1 && access(s) / 0x20
                    % 4 == s % 4 && access(s) / 0x10 % 2 == 1 && access(s) / 2 % 2 == 1
            &&& access(KERNEL_CODE_SELECTOR) / 8 % 2 == 1
            &&& access(USER_CODE_SELECTOR) / 8 % 2 == 1
            &&& access(KERNEL_DATA_SELECTOR) / 8 % 2 == 0
            &&& access(USER_DATA_SELECTOR) / 8 % 2 == 0
            &&& d[KERNEL_CODE_SELECTOR as int / 8] / 0x20_0000_0000_0000 % 2 == 1
            &&& d[USER_CODE_SELECTOR as int / 8] / 0x20_0000_0000_0000 % 2 == 1
        }),
{
}

} // verus!
