//! The kernel heap: a bump allocator over a fixed region. Memory that was
//! handed out is never taken back.
use vstd::prelude::*;
use crate::bytes;
use crate::fmt;

verus! {

/// Bytes of heap.
pub const HEAP_SIZE: u64 = 0x10_0000;

/// Hands out a region from its start on.
pub struct BumpAllocator {
    /// Offset of the first byte that was not handed out yet.
    next: u64,
}

/// The lowest multiple of `align` from `a` on.
pub open spec fn align_up(a: int, align: int) -> int {
    if a % align == 0 {
        a
    } else {
        a - a % align + align
    }
}

impl View for BumpAllocator {
    type V = u64;

    closed spec fn view(&self) -> u64 {
        self.next
    }
}

impl BumpAllocator {
    /// Never hands out more than the heap.
    pub closed spec fn wf(&self) -> bool {
        self.next <= HEAP_SIZE
    }

    pub fn new() -> (r: Self)
        ensures
            r.wf(),
            r@ == 0,
    {
        BumpAllocator { next: 0 }
    }

    /// Hands out `size` bytes at a multiple of `align`, in the heap that starts
    /// at `heap_start`. `None`, and nothing changes, if that does not fit.
    pub fn allocate(&mut self, heap_start: u64, size: u64, align: u64) -> (r: Option<u64>)
        requires
            old(self).wf(),
            align > 0,
            heap_start + HEAP_SIZE + align <= u64::MAX,
        ensures
            final(self).wf(),
            ({
                let at = align_up(heap_start + old(self)@, align as int);
                if at - heap_start + size > HEAP_SIZE {
                    r is None && final(self)@ == old(self)@
                } else {
                    r == Some(at as u64) && final(self)@ == at - heap_start + size
                }
            }),
    {
        self.allocate_beside(heap_start, size, align, 0)
    }

    /// As [`Self::allocate`] does, for one of two parts of the heap: `beside` is
    /// what the other part has handed out. Together they hand out no more than
    /// the heap.
    pub fn allocate_beside(&mut self, heap_start: u64, size: u64, align: u64, beside: u64) -> (r:
        Option<u64>)
        requires
            old(self).wf(),
            align > 0,
            heap_start + HEAP_SIZE + align <= u64::MAX,
        ensures
            final(self).wf(),
            ({
                let at = align_up(heap_start + old(self)@, align as int);
                if at - heap_start + size + beside > HEAP_SIZE {
                    r is None && final(self)@ == old(self)@
                } else {
                    r == Some(at as u64) && final(self)@ == at - heap_start + size
                }
            }),
    {
        let current = heap_start + self.next;
        let over = current % align;
        proof {
            vstd::arithmetic::div_mod::lemma_mod_decreases(current as nat, align as nat);
        }
        let aligned = if over == 0 {
            current
        } else {
            current - over + align
        };
        let offset = aligned - heap_start;
        if beside > HEAP_SIZE || size > HEAP_SIZE - beside || offset > HEAP_SIZE - beside - size {
            return None;
        }
        self.next = offset + size;
        Some(aligned)
    }

    /// Bytes handed out so far, alignment gaps included.
    pub fn used_bytes(&self) -> (r: u64)
        ensures
            r == self@,
    {
        self.next
    }
}

/// What is printed when a block does not fit.
pub open spec fn exhausted_text(size: u64, align: u64) -> Seq<u8> {
    fmt::text("[FATAL] Heap agotado pidiendo "@) + fmt::decimal(size as nat) + fmt::text(
        " bytes (align "@,
    ) + fmt::decimal(align as nat) + fmt::text(")\n"@)
}

/// Reports that a block does not fit. The kernel cannot go on without it.
pub fn alloc_error(out: &mut Vec<u8>, size: u64, align: u64)
    ensures
        final(out)@ == old(out)@ + exhausted_text(size, align),
{
    let mut line: Vec<u8> = Vec::new();
    fmt::push_text(&mut line, "[FATAL] Heap agotado pidiendo ");
    assert(line@ =~= fmt::text("[FATAL] Heap agotado pidiendo "@));
    fmt::push_decimal(&mut line, size);
    fmt::push_text(&mut line, " bytes (align ");
    fmt::push_decimal(&mut line, align);
    fmt::push_text(&mut line, ")\n");
    bytes::push_all(out, line.as_slice());
}

/// Every block is aligned, lies inside the heap, and starts at or after the end
/// of all blocks handed out before.
pub proof fn law_blocks_do_not_overlap(heap_start: int, used: int, size: int, align: int)
    requires
        heap_start >= 0,
        0 <= used <= HEAP_SIZE,
        size >= 0,
        align > 0,
        align_up(heap_start + used, align) - heap_start + size <= HEAP_SIZE,
    ensures
        ({
            let at = align_up(heap_start + used, align);
            &&& at % align == 0
            &&& heap_start + used <= at < heap_start + used + align
            &&& at + size <= heap_start + HEAP_SIZE
        }),
{
    let a = heap_start + used;
    assert(0 <= a % align < align) by (nonlinear_arith)
        requires
            align > 0,
    ;
    if a % align != 0 {
        vstd::arithmetic::div_mod::lemma_fundamental_div_mod(a, align);
        let q = a / align;
        assert(a - a % align + align == align * (q + 1)) by (nonlinear_arith)
            requires
                a == align * q + a % align,
        ;
        vstd::arithmetic::div_mod::lemma_mod_multiples_basic(q + 1, align);
        assert(align * (q + 1) == (q + 1) * align) by (nonlinear_arith);
    }
}

} // verus!
