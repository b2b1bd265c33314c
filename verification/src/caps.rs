//! Capability gating in the style of `pledge(2)`.
//!
//! Every process declares once which categories of system call it needs. The
//! mask can only shrink afterwards: asking for anything outside of it is
//! denied, for good.
use vstd::prelude::*;

verus! {

pub type CapMask = u32;

/// Console and serial port.
pub const CAP_STDIO: CapMask = 0x1;

pub const CAP_FS_READ: CapMask = 0x2;

pub const CAP_FS_WRITE: CapMask = 0x4;

/// Fork and exec of other processes.
pub const CAP_EXEC: CapMask = 0x8;

pub const CAP_NET: CapMask = 0x10;

/// Memory beyond the initial heap.
pub const CAP_MEM_MAP: CapMask = 0x20;

pub const CAP_TIME: CapMask = 0x40;

pub const CAP_IPC: CapMask = 0x80;

/// Framebuffer and GPU.
pub const CAP_GFX: CapMask = 0x100;

/// Signals to other processes.
pub const CAP_PROC_CTL: CapMask = 0x200;

/// Every capability: for the kernel itself, before there are processes.
pub const CAP_UNRESTRICTED: CapMask = 0xFFFF_FFFF;

/// The capabilities of a process. The view is the mask.
#[derive(Clone, Copy)]
pub struct Capabilities(CapMask);

/// [`Capabilities::pledge`] was asked for a capability that was not held.
#[derive(Debug, PartialEq, Eq, Structural)]
pub struct PledgeExpansionDenied;

/// A capability was needed that the process does not hold.
#[derive(Debug, PartialEq, Eq, Structural)]
pub struct CapViolation {
    pub requested: CapMask,
    pub granted: CapMask,
}

impl View for Capabilities {
    type V = CapMask;

    closed spec fn view(&self) -> CapMask {
        self.0
    }
}

/// Whether every bit of `a` is in `b`.
pub open spec fn within(a: CapMask, b: CapMask) -> bool {
    a & b == a
}

proof fn lemma_within(a: u32, b: u32, c: u32)
    by (bit_vector)
    ensures
        (a & !b == 0) == (a & b == a),
        b == 0xFFFF_FFFF ==> a & b == a,
        (b & a == a) == (a & b == a),
        a & b == a && b & c == b ==> a & c == a,
        a & a == a,
        a & 0 == a ==> a == 0,
{
}

impl Capabilities {
    pub fn unrestricted() -> (r: Self)
        ensures
            r@ == CAP_UNRESTRICTED,
    {
        Capabilities(CAP_UNRESTRICTED)
    }

    pub fn none() -> (r: Self)
        ensures
            r@ == 0,
    {
        Capabilities(0)
    }

    /// Reduces the mask to `requested`. Fails, and changes nothing, if that
    /// holds a capability that the current mask lacks.
    pub fn pledge(&mut self, requested: CapMask) -> (r: Result<(), PledgeExpansionDenied>)
        ensures
            r is Ok <==> within(requested, old(self)@),
            old(self)@ == CAP_UNRESTRICTED ==> r is Ok,
            final(self)@ == if within(requested, old(self)@) {
                requested
            } else {
                old(self)@
            },
    {
        proof {
            lemma_within(requested, self.0, 0);
        }
        let expanding = requested & !self.0 != 0;
        if expanding && self.0 != CAP_UNRESTRICTED {
            return Err(PledgeExpansionDenied);
        }
        self.0 = requested;
        Ok(())
    }

    /// Whether every capability in `cap` is held.
    pub fn allows(&self, cap: CapMask) -> (r: bool)
        ensures
            r == within(cap, self@),
    {
        proof {
            lemma_within(cap, self.0, 0);
        }
        self.0 & cap == cap
    }

    /// What the system call dispatcher asks before any operation.
    pub fn enforce(&self, cap: CapMask) -> (r: Result<(), CapViolation>)
        ensures
            r is Ok <==> within(cap, self@),
            r matches Err(v) ==> v.requested == cap && v.granted == self@,
    {
        if self.allows(cap) {
            Ok(())
        } else {
            Err(CapViolation { requested: cap, granted: self.0 })
        }
    }
}

/// What is denied once stays denied: after any pledge, granted or refused,
/// nothing is allowed that was not allowed before.
pub proof fn law_pledge_never_expands(before: CapMask, requested: CapMask, cap: CapMask)
    ensures
        ({
            let after = if within(requested, before) {
                requested
            } else {
                before
            };
            within(cap, after) ==> within(cap, before)
        }),
{
    lemma_within(cap, requested, before);
}

/// Without capabilities only the empty request is allowed.
pub proof fn law_none_allows_nothing(cap: CapMask)
    ensures
        within(cap, 0) <==> cap == 0,
{
    lemma_within(cap, 0, 0);
}

/// A request is allowed if and only if each of its bits is granted; so each
/// capability hangs on a bit of its own.
pub proof fn law_each_capability_is_a_bit(requested: CapMask, granted: CapMask)
    ensures
        within(requested, granted) <==> forall|n: u32|
            n < 32 && #[trigger] (requested >> n) % 2 == 1 ==> (granted >> n) % 2 == 1,
        within(CAP_STDIO, granted) <==> granted % 2 == 1,
        within(CAP_FS_READ, granted) <==> granted / 2 % 2 == 1,
        within(CAP_FS_WRITE, granted) <==> granted / 4 % 2 == 1,
        within(CAP_EXEC, granted) <==> granted / 8 % 2 == 1,
        within(CAP_NET, granted) <==> granted / 16 % 2 == 1,
        within(CAP_MEM_MAP, granted) <==> granted / 32 % 2 == 1,
        within(CAP_TIME, granted) <==> granted / 64 % 2 == 1,
        within(CAP_IPC, granted) <==> granted / 128 % 2 == 1,
        within(CAP_GFX, granted) <==> granted / 256 % 2 == 1,
        within(CAP_PROC_CTL, granted) <==> granted / 512 % 2 == 1,
{
    let g = granted;
    let q = requested;
    lemma_single_bits(g);
    assert forall|n: u32|
        q & g == q && n < 32 && #[trigger] (q >> n) % 2 == 1 implies (g >> n) % 2 == 1 by {
        lemma_bit_of(q, g, n);
    }
    if forall|n: u32| n < 32 && #[trigger] (q >> n) % 2 == 1 ==> (g >> n) % 2 == 1 {
        lemma_lowest_missing(q, g);
        let d = q & !g;
        if q & g != q {
            let n = choose|n: u32| n < 32 && #[trigger] (d >> n) % 2 == 1;
            lemma_bit_of(q, g, n);
            assert((q >> n) % 2 == 1);
        }
    }
}

proof fn lemma_single_bits(g: u32)
    by (bit_vector)
    ensures
        (0x1u32 & g == 0x1) == (g % 2 == 1),
        (0x2u32 & g == 0x2) == (g / 2 % 2 == 1),
        (0x4u32 & g == 0x4) == (g / 4 % 2 == 1),
        (0x8u32 & g == 0x8) == (g / 8 % 2 == 1),
        (0x10u32 & g == 0x10) == (g / 16 % 2 == 1),
        (0x20u32 & g == 0x20) == (g / 32 % 2 == 1),
        (0x40u32 & g == 0x40) == (g / 64 % 2 == 1),
        (0x80u32 & g == 0x80) == (g / 128 % 2 == 1),
        (0x100u32 & g == 0x100) == (g / 256 % 2 == 1),
        (0x200u32 & g == 0x200) == (g / 512 % 2 == 1),
{
}

proof fn lemma_bit_of(q: u32, g: u32, n: u32)
    by (bit_vector)
    requires
        n < 32,
    ensures
        q & g == q && (q >> n) % 2 == 1 ==> (g >> n) % 2 == 1,
        ((q & !g) >> n) % 2 == 1 ==> (q >> n) % 2 == 1 && (g >> n) % 2 == 0,
{
}

/// A bit that is requested but not granted.
proof fn lemma_lowest_missing(q: u32, g: u32)
    ensures
        q & g != q ==> exists|n: u32| n < 32 && #[trigger] ((q & !g) >> n) % 2 == 1,
{
    let d = q & !g;
    lemma_within(q, g, 0);
    if q & g != q {
        if forall|n: u32| n < 32 ==> #[trigger] (d >> n) % 2 == 0 {
            let h = |n: u32| (d >> n) % 2;
            assert(h(0) == 0 && h(1) == 0 && h(2) == 0 && h(3) == 0 && h(4) == 0 && h(5) == 0);
            assert(h(6) == 0 && h(7) == 0 && h(8) == 0 && h(9) == 0 && h(10) == 0 && h(11) == 0);
            assert(h(12) == 0 && h(13) == 0 && h(14) == 0 && h(15) == 0 && h(16) == 0 && h(17) == 0);
            assert(h(18) == 0 && h(19) == 0 && h(20) == 0 && h(21) == 0 && h(22) == 0 && h(23) == 0);
            assert(h(24) == 0 && h(25) == 0 && h(26) == 0 && h(27) == 0 && h(28) == 0 && h(29) == 0);
            assert(h(30) == 0 && h(31) == 0);
            assert(d == 0) by (bit_vector)
                requires
                    (d >> 0u32) % 2 == 0 && (d >> 1u32) % 2 == 0 && (d >> 2u32) % 2 == 0 && (d >> 3u32)
                        % 2 == 0 && (d >> 4u32) % 2 == 0 && (d >> 5u32) % 2 == 0 && (d >> 6u32) % 2
                        == 0 && (d >> 7u32) % 2 == 0 && (d >> 8u32) % 2 == 0 && (d >> 9u32) % 2 == 0
                        && (d >> 10u32) % 2 == 0 && (d >> 11u32) % 2 == 0 && (d >> 12u32) % 2 == 0
                        && (d >> 13u32) % 2 == 0 && (d >> 14u32) % 2 == 0 && (d >> 15u32) % 2 == 0
                        && (d >> 16u32) % 2 == 0 && (d >> 17u32) % 2 == 0 && (d >> 18u32) % 2 == 0
                        && (d >> 19u32) % 2 == 0 && (d >> 20u32) % 2 == 0 && (d >> 21u32) % 2 == 0
                        && (d >> 22u32) % 2 == 0 && (d >> 23u32) % 2 == 0 && (d >> 24u32) % 2 == 0
                        && (d >> 25u32) % 2 == 0 && (d >> 26u32) % 2 == 0 && (d >> 27u32) % 2 == 0
                        && (d >> 28u32) % 2 == 0 && (d >> 29u32) % 2 == 0 && (d >> 30u32) % 2 == 0
                        && (d >> 31u32) % 2 == 0,
            ;
        }
    }
}

} // verus!
