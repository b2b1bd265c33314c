//! The two interrupt controllers (8259).
//!
//! Out of reset they deliver hardware interrupts on the vectors of processor
//! exceptions. [`init`] moves interrupts 0 to 7 to the vectors from 32 on and 8
//! to 15 to those from 40 on, and masks all of them: each driver unmasks its
//! own when it is ready.
use vstd::prelude::*;
use crate::io::PortWrite;

verus! {

pub const PIC1_CMD: u16 = 0x20;

pub const PIC1_DATA: u16 = 0x21;

pub const PIC2_CMD: u16 = 0xA0;

pub const PIC2_DATA: u16 = 0xA1;

/// Unused port: a write to it is a short pause.
pub const WAIT_PORT: u16 = 0x80;

pub const ICW1_INIT: u8 = 0x11;

pub const ICW4_8086: u8 = 0x01;

/// Vector of interrupt 0.
pub const PIC1_OFFSET: u8 = 32;

/// Vector of interrupt 8.
pub const PIC2_OFFSET: u8 = 40;

pub const END_OF_INTERRUPT: u8 = 0x20;

/// The writes that set up the controllers: the four command words to each, with
/// a pause after every one, then both masks full.
pub open spec fn init_sequence() -> Seq<PortWrite> {
    seq![
        PortWrite { port: PIC1_CMD, value: ICW1_INIT },
        PortWrite { port: WAIT_PORT, value: 0 },
        PortWrite { port: PIC2_CMD, value: ICW1_INIT },
        PortWrite { port: WAIT_PORT, value: 0 },
        PortWrite { port: PIC1_DATA, value: PIC1_OFFSET },
        PortWrite { port: WAIT_PORT, value: 0 },
        PortWrite { port: PIC2_DATA, value: PIC2_OFFSET },
        PortWrite { port: WAIT_PORT, value: 0 },
        PortWrite { port: PIC1_DATA, value: 4 },
        PortWrite { port: WAIT_PORT, value: 0 },
        PortWrite { port: PIC2_DATA, value: 2 },
        PortWrite { port: WAIT_PORT, value: 0 },
        PortWrite { port: PIC1_DATA, value: ICW4_8086 },
        PortWrite { port: WAIT_PORT, value: 0 },
        PortWrite { port: PIC2_DATA, value: ICW4_8086 },
        PortWrite { port: WAIT_PORT, value: 0 },
        PortWrite { port: PIC1_DATA, value: 0xFF },
        PortWrite { port: PIC2_DATA, value: 0xFF },
    ]
}

fn push_with_pause(out: &mut Vec<PortWrite>, port: u16, value: u8)
    ensures
        final(out)@ == old(out)@.push(PortWrite { port, value }).push(
            PortWrite { port: WAIT_PORT, value: 0 },
        ),
{
    out.push(PortWrite { port, value });
    out.push(PortWrite { port: WAIT_PORT, value: 0 });
}

/// Sets up both controllers with every interrupt masked.
pub fn init() -> (r: Vec<PortWrite>)
    ensures
        r@ == init_sequence(),
{
    let mut out: Vec<PortWrite> = Vec::new();
    push_with_pause(&mut out, PIC1_CMD, ICW1_INIT);
    push_with_pause(&mut out, PIC2_CMD, ICW1_INIT);
    push_with_pause(&mut out, PIC1_DATA, PIC1_OFFSET);
    push_with_pause(&mut out, PIC2_DATA, PIC2_OFFSET);
    push_with_pause(&mut out, PIC1_DATA, 4);
    push_with_pause(&mut out, PIC2_DATA, 2);
    push_with_pause(&mut out, PIC1_DATA, ICW4_8086);
    push_with_pause(&mut out, PIC2_DATA, ICW4_8086);
    out.push(PortWrite { port: PIC1_DATA, value: 0xFF });
    out.push(PortWrite { port: PIC2_DATA, value: 0xFF });
    assert(out@ =~= init_sequence());
    out
}

/// Acknowledges interrupt `irq`. Interrupts from 8 on come through both
/// controllers, so both are told.
pub fn end_of_interrupt(irq: u8) -> (r: Vec<PortWrite>)
    ensures
        r@ == if irq >= 8 {
            seq![
                PortWrite { port: PIC2_CMD, value: END_OF_INTERRUPT },
                PortWrite { port: PIC1_CMD, value: END_OF_INTERRUPT },
            ]
        } else {
            seq![PortWrite { port: PIC1_CMD, value: END_OF_INTERRUPT }]
        },
{
    let mut out: Vec<PortWrite> = Vec::new();
    if irq >= 8 {
        out.push(PortWrite { port: PIC2_CMD, value: END_OF_INTERRUPT });
    }
    out.push(PortWrite { port: PIC1_CMD, value: END_OF_INTERRUPT });
    assert(out@ =~= if irq >= 8 {
        seq![
            PortWrite { port: PIC2_CMD, value: END_OF_INTERRUPT },
            PortWrite { port: PIC1_CMD, value: END_OF_INTERRUPT },
        ]
    } else {
        seq![PortWrite { port: PIC1_CMD, value: END_OF_INTERRUPT }]
    });
    out
}

/// The port of the mask that holds the bit of `irq`.
pub fn mask_port(irq: u8) -> (r: u16)
    ensures
        r == if irq < 8 {
            PIC1_DATA
        } else {
            PIC2_DATA
        },
{
    if irq < 8 {
        PIC1_DATA
    } else {
        PIC2_DATA
    }
}

/// Whether bit `i` of a mask is set.
pub open spec fn masked(mask: u8, i: u8) -> bool {
    mask & (1u8 << i) != 0
}

proof fn lemma_clear(mask: u8, i: u8, j: u8)
    by (bit_vector)
    requires
        i < 8,
        j < 8,
    ensures
        ((mask & !(1u8 << i)) & (1u8 << j) != 0) == (j != i && mask & (1u8 << j) != 0),
{
}

/// Lets interrupt `irq` through, given the current value of the mask at
/// [`mask_port`]. No other interrupt is touched.
pub fn unmask(irq: u8, current: u8) -> (r: PortWrite)
    requires
        irq < 16,
    ensures
        r.port == if irq < 8 {
            PIC1_DATA
        } else {
            PIC2_DATA
        },
        forall|j: u8|
            j < 8 ==> #[trigger] masked(r.value, j) == (j != irq % 8 && masked(current, j)),
{
    let (port, bit) = if irq < 8 {
        (PIC1_DATA, irq)
    } else {
        (PIC2_DATA, irq - 8)
    };
    proof {
        assert forall|j: u8| j < 8 implies #[trigger] masked(current & !(1u8 << bit), j) == (j
            != bit && masked(current, j)) by {
            lemma_clear(current, bit, j);
        }
    }
    PortWrite { port, value: current & !(1u8 << bit) }
}

/// After [`init`] no hardware interrupt shares a vector with a processor
/// exception.
pub proof fn law_vectors_are_apart(irq: u8)
    requires
        irq < 16,
    ensures
        ({
            let vector: int = if irq < 8 {
                PIC1_OFFSET + irq
            } else {
                PIC2_OFFSET + (irq - 8)
            };
            32 <= vector < 48
        }),
        init_sequence()[4] == (PortWrite { port: PIC1_DATA, value: PIC1_OFFSET }),
        init_sequence()[6] == (PortWrite { port: PIC2_DATA, value: PIC2_OFFSET }),
{
}

} // verus!
