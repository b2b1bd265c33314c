//! The RTL8139 network card: start-up, transmission and reception.
//!
//! The card is woken and reset, its factory address is read, and its buffers
//! are taken from the physical allocator: a receive ring and four transmit
//! buffers that are used in turn.
use vstd::prelude::*;
use crate::fmt;
use crate::io::PortIo;
use crate::mem::{self, PhysMemory};
use crate::pci::{self, ConfigRead, ConfigSpace, ConfigWrite, PciDevice, Position, Scan};
use crate::pmm::{self, FrameBitmap};

verus! {

pub const RTL8139_VENDOR: u16 = 0x10EC;

pub const RTL8139_DEVICE: u16 = 0x8139;

/// Six bytes: the factory address.
pub const REG_MAC0: u16 = 0x00;

/// Four 32-bit registers, one per transmit buffer.
pub const REG_TX_STATUS0: u16 = 0x10;

/// Four 32-bit registers: where the transmit buffers are.
pub const REG_TX_ADDR0: u16 = 0x20;

/// Where the receive ring is.
pub const REG_RX_BUF: u16 = 0x30;

pub const REG_CMD: u16 = 0x37;

/// How far the ring has been read.
pub const REG_CAPR: u16 = 0x38;

pub const REG_TX_CONFIG: u16 = 0x40;

pub const REG_RX_CONFIG: u16 = 0x44;

/// Power management.
pub const REG_CONFIG1: u16 = 0x52;

pub const CMD_RESET: u8 = 0x10;

pub const CMD_RX_ENABLE: u8 = 0x08;

pub const CMD_TX_ENABLE: u8 = 0x04;

/// The receive ring is empty.
pub const CMD_BUF_EMPTY: u8 = 0x01;

/// Broadcast, multicast and own frames; a frame may run over the end of the ring.
pub const RX_CONFIG: u32 = 0x8E;

pub const TX_CONFIG: u32 = 0x0300_0000;

/// The frame was sent: bit 15.
pub const TX_STAT_OK: u32 = 0x8000;

/// The frame was received whole.
pub const RX_STAT_OK: u16 = 0x0001;

/// Frames of the receive ring: room for what runs over its end.
pub const RX_BUFFER_FRAMES: usize = 3;

pub const RX_BUFFER_BYTES: u64 = 12288;

/// Where reading starts again at the front of the ring.
pub const RX_LOGICAL_SIZE: u32 = 8192;

/// The largest frame that is sent.
pub const TX_BUFFER_SIZE: usize = 1536;

/// The smallest Ethernet frame, without its checksum.
pub const MIN_FRAME: usize = 60;

/// Times that a register is read before giving up.
pub const PATIENCE: u32 = 1_000_000;

/// Times that a probe reads the command register while the card resets: it gives
/// up only after more than [`PATIENCE`] reads.
pub const PROBE_PATIENCE: u32 = 1_000_001;

pub const ERR_TOO_LARGE: &'static str = "trama demasiado grande para esta versión (máx 1536 bytes)";

pub const BAD_BAR: &'static str =
    "[rtl8139] BAR0 no es I/O port válido — abortando init_full\n";

pub const STUCK: &'static str = "[rtl8139] reset no terminó a tiempo\n";

pub const ERR_TX_TIMEOUT: &'static str = "timeout esperando TxStatOK";

/// The first RTL8139 among the devices.
pub open spec fn card_among(devs: Seq<PciDevice>) -> Option<PciDevice> {
    if exists|i: int| pci::is_first_model(devs, RTL8139_VENDOR, RTL8139_DEVICE, i) {
        Some(devs[choose|i: int| pci::is_first_model(devs, RTL8139_VENDOR, RTL8139_DEVICE, i)])
    } else {
        None
    }
}

/// The first RTL8139 among the devices.
pub fn find_controller(devs: &Vec<PciDevice>) -> (r: Option<PciDevice>)
    ensures
        r == card_among(devs@),
{
    let r = pci::find_model(devs, RTL8139_VENDOR, RTL8139_DEVICE);
    proof {
        if r is Some {
            let i = choose|i: int|
                #![trigger pci::is_first_model(devs@, RTL8139_VENDOR, RTL8139_DEVICE, i)]
                pci::is_first_model(devs@, RTL8139_VENDOR, RTL8139_DEVICE, i) && r == Some(
                    devs@[i],
                );
            let k = choose|k: int| pci::is_first_model(devs@, RTL8139_VENDOR, RTL8139_DEVICE, k);
            assert(i == k) by {
                if i < k {
                    assert(devs@[i].vendor_id == RTL8139_VENDOR);
                } else if k < i {
                    assert(devs@[k].vendor_id == RTL8139_VENDOR);
                }
            }
        }
    }
    r
}

/// Where the registers of the card are, given its first base address register.
/// Only cards whose registers are I/O ports are supported.
pub fn io_port(bar0: u32) -> (r: Option<u16>)
    ensures
        r is None <==> bar0 % 2 == 0,
        r matches Some(p) ==> p == (bar0 - bar0 % 4) % 0x1_0000,
{
    if pci::bar_is_memory(bar0) {
        None
    } else {
        Some(pci::bar_io_port(bar0))
    }
}

// --- start-up ----------------------------------------------------------------------

/// Where the start-up is.
#[derive(Clone, Copy, PartialEq, Eq, Debug, Structural)]
pub enum StartupStage {
    /// Leave power-down.
    Wake,
    /// Ask for a reset.
    Reset,
    /// Wait for the card to take the reset bit back; this many reads are left.
    Wait(u32),
    /// Read this byte of the address.
    Address(u8),
    Ready,
    TimedOut,
}

/// A start-up of the card. The caller performs the accesses that it asks for and
/// hands over what the reads gave.
pub struct Startup {
    pub io_base: u16,
    pub patience: u32,
    pub stage: StartupStage,
    pub mac: [u8; 6],
}

/// The access that a stage asks for.
pub open spec fn startup_access(io_base: u16, stage: StartupStage) -> Option<PortIo> {
    match stage {
        StartupStage::Wake => Some(PortIo::Write8(io_base.wrapping_add(REG_CONFIG1), 0)),
        StartupStage::Reset => Some(PortIo::Write8(io_base.wrapping_add(REG_CMD), CMD_RESET)),
        StartupStage::Wait(_) => Some(PortIo::Read8(io_base.wrapping_add(REG_CMD))),
        StartupStage::Address(i) => Some(PortIo::Read8(io_base.wrapping_add(i as u16))),
        StartupStage::Ready => None,
        StartupStage::TimedOut => None,
    }
}

/// The stage after one whose access gave `value`.
pub open spec fn startup_next(stage: StartupStage, patience: u32, value: u8) -> StartupStage {
    match stage {
        StartupStage::Wake => StartupStage::Reset,
        StartupStage::Reset => StartupStage::Wait(patience),
        StartupStage::Wait(n) => if value & CMD_RESET == 0 {
            StartupStage::Address(0)
        } else if n <= 1 {
            StartupStage::TimedOut
        } else {
            StartupStage::Wait((n - 1) as u32)
        },
        StartupStage::Address(i) => if i >= 5 {
            StartupStage::Ready
        } else {
            StartupStage::Address((i + 1) as u8)
        },
        s => s,
    }
}

/// The most accesses that are still to come.
pub open spec fn startup_left(stage: StartupStage, patience: u32) -> int {
    match stage {
        StartupStage::Wake => patience + 8,
        StartupStage::Reset => patience + 7,
        StartupStage::Wait(n) => n + 6,
        StartupStage::Address(i) => 6 - i,
        _ => 0,
    }
}

impl Startup {
    pub open spec fn wf(&self) -> bool {
        &&& self.patience > 0
        &&& match self.stage {
            StartupStage::Wait(n) => n > 0,
            StartupStage::Address(i) => i < 6,
            _ => true,
        }
    }

    pub open spec fn over(&self) -> bool {
        self.stage == StartupStage::Ready || self.stage == StartupStage::TimedOut
    }

    /// A start-up that reads the command register at most `patience` times.
    pub fn new(io_base: u16, patience: u32) -> (r: Self)
        requires
            patience > 0,
        ensures
            r.wf(),
            r.io_base == io_base,
            r.patience == patience,
            r.stage == StartupStage::Wake,
            r.mac@ == Seq::new(6, |i: int| 0u8),
    {
        let mac: [u8; 6] = [0;6];
        assert(mac@ =~= Seq::new(6, |i: int| 0u8));
        Startup { io_base, patience, stage: StartupStage::Wake, mac }
    }

    /// The next access. `None` once the card is ready, or did not come out of
    /// its reset.
    pub fn request(&self) -> (r: Option<PortIo>)
        ensures
            r == startup_access(self.io_base, self.stage),
            r is None <==> self.over(),
    {
        match self.stage {
            StartupStage::Wake => Some(PortIo::Write8(self.io_base.wrapping_add(REG_CONFIG1), 0)),
            StartupStage::Reset => Some(
                PortIo::Write8(self.io_base.wrapping_add(REG_CMD), CMD_RESET),
            ),
            StartupStage::Wait(_) => Some(PortIo::Read8(self.io_base.wrapping_add(REG_CMD))),
            StartupStage::Address(i) => Some(
                PortIo::Read8(self.io_base.wrapping_add(REG_MAC0 + i as u16)),
            ),
            StartupStage::Ready => None,
            StartupStage::TimedOut => None,
        }
    }

    /// Takes what the access gave; `value` does not matter after a write.
    pub fn supply(&mut self, value: u8)
        requires
            old(self).wf(),
            !old(self).over(),
        ensures
            final(self).wf(),
            final(self).io_base == old(self).io_base,
            final(self).patience == old(self).patience,
            final(self).stage == startup_next(old(self).stage, old(self).patience, value),
            final(self).mac@ == match old(self).stage {
                StartupStage::Address(i) => old(self).mac@.update(i as int, value),
                _ => old(self).mac@,
            },
            startup_left(final(self).stage, final(self).patience) < startup_left(
                old(self).stage,
                old(self).patience,
            ),
    {
        match self.stage {
            StartupStage::Wake => {
                self.stage = StartupStage::Reset;
            },
            StartupStage::Reset => {
                self.stage = StartupStage::Wait(self.patience);
            },
            StartupStage::Wait(n) => {
                self.stage = if value & CMD_RESET == 0 {
                    StartupStage::Address(0)
                } else if n <= 1 {
                    StartupStage::TimedOut
                } else {
                    StartupStage::Wait(n - 1)
                };
            },
            StartupStage::Address(i) => {
                self.mac[i as usize] = value;
                self.stage = if i >= 5 {
                    StartupStage::Ready
                } else {
                    StartupStage::Address(i + 1)
                };
            },
            StartupStage::Ready => {},
            StartupStage::TimedOut => {},
        }
    }
}

// --- what is printed of it -----------------------------------------------------------

/// What is printed of a card before it is started.
pub open spec fn card_text(dev: Option<PciDevice>, bar0: u32) -> Seq<u8> {
    match dev {
        None => fmt::text("[rtl8139] no se encontró ninguna tarjeta RTL8139\n"@),
        Some(d) => fmt::text("[rtl8139] tarjeta en "@) + pci::place_text(d) + fmt::text("\n"@)
            + if bar0 % 2 == 0 {
            fmt::text(
                "[rtl8139] BAR0 es MMIO — esta pasada solo soporta acceso por I/O port\n"@,
            )
        } else {
            fmt::text("[rtl8139] I/O base = 0x"@) + fmt::hex(
                ((bar0 - bar0 % 4) % 0x1_0000) as nat,
            ) + fmt::text("\n"@)
        },
    }
}

/// What is printed of a card before it is started.
pub fn card_report(dev: &Option<PciDevice>, bar0: u32) -> (r: Vec<u8>)
    ensures
        r@ == card_text(*dev, bar0),
{
    let mut out: Vec<u8> = Vec::new();
    match dev {
        None => {
            fmt::push_text(&mut out, "[rtl8139] no se encontró ninguna tarjeta RTL8139\n");
        },
        Some(d) => {
            fmt::push_text(&mut out, "[rtl8139] tarjeta en ");
            pci::push_place(&mut out, d);
            fmt::push_text(&mut out, "\n");
            match io_port(bar0) {
                None => {
                    fmt::push_text(
                        &mut out,
                        "[rtl8139] BAR0 es MMIO — esta pasada solo soporta acceso por I/O port\n",
                    );
                },
                Some(io_base) => {
                    fmt::push_text(&mut out, "[rtl8139] I/O base = 0x");
                    fmt::push_hex(&mut out, io_base as u64);
                    fmt::push_text(&mut out, "\n");
                },
            }
        },
    }
    assert(out@ =~= card_text(*dev, bar0));
    out
}

/// A MAC address in print.
pub open spec fn mac_text(mac: Seq<u8>) -> Seq<u8> {
    fmt::hex2(mac[0]) + fmt::text(":"@) + fmt::hex2(mac[1]) + fmt::text(":"@) + fmt::hex2(mac[2])
        + fmt::text(":"@) + fmt::hex2(mac[3]) + fmt::text(":"@) + fmt::hex2(mac[4]) + fmt::text(
        ":"@,
    ) + fmt::hex2(mac[5])
}

/// Appends a MAC address.
pub fn push_mac(out: &mut Vec<u8>, mac: &[u8; 6])
    ensures
        final(out)@ == old(out)@ + mac_text(mac@),
{
    fmt::push_hex2(out, mac[0]);
    fmt::push_text(out, ":");
    fmt::push_hex2(out, mac[1]);
    fmt::push_text(out, ":");
    fmt::push_hex2(out, mac[2]);
    fmt::push_text(out, ":");
    fmt::push_hex2(out, mac[3]);
    fmt::push_text(out, ":");
    fmt::push_hex2(out, mac[4]);
    fmt::push_text(out, ":");
    fmt::push_hex2(out, mac[5]);
    assert(out@ =~= old(out)@ + mac_text(mac@));
}

/// What is printed of a start-up that is over.
pub fn probe_and_print(startup: &Startup) -> (r: Vec<u8>)
    requires
        startup.over(),
    ensures
        r@ == if startup.stage == StartupStage::Ready {
            fmt::text("[rtl8139] MAC = "@) + mac_text(startup.mac@) + fmt::text("\n"@)
        } else {
            fmt::text("[rtl8139] el reset no terminó a tiempo — abortando\n"@)
        },
{
    let mut out: Vec<u8> = Vec::new();
    match startup.stage {
        StartupStage::Ready => {
            fmt::push_text(&mut out, "[rtl8139] MAC = ");
            push_mac(&mut out, &startup.mac);
            fmt::push_text(&mut out, "\n");
            assert(out@ =~= fmt::text("[rtl8139] MAC = "@) + mac_text(startup.mac@) + fmt::text(
                "\n"@,
            ));
        },
        _ => {
            fmt::push_text(&mut out, "[rtl8139] el reset no terminó a tiempo — abortando\n");
            assert(out@ =~= fmt::text("[rtl8139] el reset no terminó a tiempo — abortando\n"@));
        },
    }
    out
}

// --- set-up ------------------------------------------------------------------------

/// A card that can send and receive.
pub struct Nic {
    pub io_base: u16,
    pub mac: [u8; 6],
    pub tx_buffers: [u64; 4],
    /// The transmit buffer that is next.
    pub tx_next: u8,
    pub rx_buf_phys: u64,
    /// Where the next packet in the ring starts. The card only says whether the
    /// ring is empty.
    pub rx_cur: u32,
}

impl Nic {
    /// The buffers are in memory, apart from each other, and the positions are
    /// inside them.
    pub open spec fn wf(&self, m: Map<u64, Seq<u64>>) -> bool {
        &&& self.tx_next < 4
        &&& self.rx_cur < RX_LOGICAL_SIZE
        &&& self.rx_cur % 4 == 0
        &&& self.rx_buf_phys % 4096 == 0
        &&& self.rx_buf_phys + RX_BUFFER_BYTES <= u64::MAX
        &&& m.contains_key(self.rx_buf_phys)
        &&& m.contains_key((self.rx_buf_phys + 4096) as u64)
        &&& m.contains_key((self.rx_buf_phys + 8192) as u64)
        &&& forall|i: int|
            0 <= i < 4 ==> m.contains_key(#[trigger] self.tx_buffers@[i]) && !(self.rx_buf_phys
                <= self.tx_buffers@[i] < self.rx_buf_phys + RX_BUFFER_BYTES)
        &&& forall|i: int, j: int|
            0 <= i < j < 4 ==> #[trigger] self.tx_buffers@[i] != #[trigger] self.tx_buffers@[j]
    }
}

/// Whether the ring goes to `base`: the lowest run of free frames that is long
/// enough.
pub open spec fn ring_place(pmm: FrameBitmap, base: u64) -> bool {
    &&& base % 4096 == 0
    &&& pmm.run_free(base as int / 4096, RX_BUFFER_FRAMES as int)
    &&& forall|s: int|
        s < base as int / 4096 ==> !#[trigger] pmm.run_free(s, RX_BUFFER_FRAMES as int)
}

/// Whether there is no run of free frames for a ring.
pub open spec fn no_ring_place(pmm: FrameBitmap) -> bool {
    forall|s: int| !#[trigger] pmm.run_free(s, RX_BUFFER_FRAMES as int)
}

/// The free frames without those of a ring at `base`.
pub open spec fn without_ring(pool: Set<u64>, base: u64) -> Set<u64> {
    Set::new(|a: u64| pool.contains(a) && !(base <= a < base + RX_BUFFER_BYTES))
}

/// Memory with an empty ring at `base`.
pub open spec fn ring_cleared(m: Map<u64, Seq<u64>>, base: u64) -> Map<u64, Seq<u64>> {
    m.insert(base, mem::zero_page()).insert((base + 4096) as u64, mem::zero_page()).insert(
        (base + 8192) as u64,
        mem::zero_page(),
    )
}

/// The free frames after `n` of them were taken, lowest first.
pub open spec fn pool_after(pool: Set<u64>, n: nat) -> Set<u64>
    decreases n,
{
    if n == 0 {
        pool
    } else {
        let before = pool_after(pool, (n - 1) as nat);
        before.remove(pmm::lowest_frame(before))
    }
}

/// The `i`-th frame to be taken.
pub open spec fn buffer_at(pool: Set<u64>, i: int) -> u64 {
    pmm::lowest_frame(pool_after(pool, i as nat))
}

/// Memory after the first `n` frames of the pool were cleared.
pub open spec fn buffers_cleared(m: Map<u64, Seq<u64>>, pool: Set<u64>, n: nat) -> Map<
    u64,
    Seq<u64>,
>
    decreases n,
{
    if n == 0 {
        m
    } else {
        buffers_cleared(m, pool, (n - 1) as nat).insert(
            buffer_at(pool, n - 1),
            mem::zero_page(),
        )
    }
}

/// How many transmit buffers there are frames for.
pub open spec fn buffers_had(pool: Set<u64>, n: int) -> bool {
    &&& 0 <= n <= 4
    &&& forall|i: int| 0 <= i < n ==> #[trigger] pool_after(pool, i as nat) != Set::<u64>::empty()
    &&& n < 4 ==> pool_after(pool, n as nat) == Set::<u64>::empty()
}

/// The accesses that tell the card where its first `n` transmit buffers are.
pub open spec fn buffer_writes(io_base: u16, pool: Set<u64>, n: nat) -> Seq<PortIo> {
    Seq::new(
        n,
        |i: int|
            PortIo::Write32(
                io_base.wrapping_add((REG_TX_ADDR0 + 4 * i) as u16),
                buffer_at(pool, i) as u32,
            ),
    )
}

/// The accesses that turn the card on: first both directions, then their
/// settings.
pub open spec fn enable_writes(io_base: u16) -> Seq<PortIo> {
    seq![
        PortIo::Write8(io_base.wrapping_add(REG_CMD), CMD_RX_ENABLE | CMD_TX_ENABLE),
        PortIo::Write32(io_base.wrapping_add(REG_RX_CONFIG), RX_CONFIG),
        PortIo::Write32(io_base.wrapping_add(REG_TX_CONFIG), TX_CONFIG),
    ]
}

/// What a set-up does that found room for the ring at `base` and for `n`
/// transmit buffers.
pub open spec fn set_up(
    old_pmm: FrameBitmap,
    old_mem: Map<u64, Seq<u64>>,
    new_pool: Set<u64>,
    new_mem: Map<u64, Seq<u64>>,
    io_base: u16,
    writes: Seq<PortIo>,
    base: u64,
    n: int,
) -> bool {
    let pool = without_ring(old_pmm@, base);
    let ring = seq![PortIo::Write32(io_base.wrapping_add(REG_RX_BUF), base as u32)];
    &&& ring_place(old_pmm, base)
    &&& buffers_had(pool, n)
    &&& new_pool == pool_after(pool, n as nat)
    &&& new_mem == buffers_cleared(ring_cleared(old_mem, base), pool, n as nat)
    &&& writes == ring + buffer_writes(io_base, pool, n as nat) + if n == 4 {
        enable_writes(io_base)
    } else {
        Seq::empty()
    }
}

/// What a set-up does that found room for the ring, but not for all transmit
/// buffers: it stops where the frames end, and keeps those it took.
pub open spec fn ran_short(
    old_pmm: FrameBitmap,
    old_mem: Map<u64, Seq<u64>>,
    new_pool: Set<u64>,
    new_mem: Map<u64, Seq<u64>>,
    io_base: u16,
    writes: Seq<PortIo>,
) -> bool {
    exists|base: u64, n: int|
        n < 4 && #[trigger] set_up(
            old_pmm,
            old_mem,
            new_pool,
            new_mem,
            io_base,
            writes,
            base,
            n,
        )
}

/// What giving a card its buffers does: the card that comes out, if the frames
/// suffice, and the accesses to perform.
pub open spec fn buffers_given(
    old_pmm: FrameBitmap,
    old_mem: Map<u64, Seq<u64>>,
    new_pool: Set<u64>,
    new_mem: Map<u64, Seq<u64>>,
    io_base: u16,
    mac: Seq<u8>,
    nic: Option<Nic>,
    writes: Seq<PortIo>,
) -> bool {
    match nic {
        Some(nic) => {
            &&& nic.io_base == io_base
            &&& nic.mac@ == mac
            &&& nic.tx_next == 0
            &&& nic.rx_cur == 0
            &&& nic.wf(new_mem)
            &&& set_up(
                old_pmm,
                old_mem,
                new_pool,
                new_mem,
                io_base,
                writes,
                nic.rx_buf_phys,
                4,
            )
            &&& nic.tx_buffers@ == Seq::new(
                4,
                |i: int| buffer_at(without_ring(old_pmm@, nic.rx_buf_phys), i),
            )
        },
        None => if no_ring_place(old_pmm) {
            &&& new_pool == old_pmm@
            &&& new_mem == old_mem
            &&& writes == Seq::<PortIo>::empty()
        } else {
            ran_short(old_pmm, old_mem, new_pool, new_mem, io_base, writes)
        },
    }
}

/// Gives a started card its buffers and turns it on. Returns the card, or `None`
/// if the frames do not suffice, and the accesses to perform, in order.
fn give_buffers(mem: &mut PhysMemory, pmm: &mut FrameBitmap, io_base: u16, mac: [u8; 6]) -> (r: (
    Option<Nic>,
    Vec<PortIo>,
))
    requires
        old(mem).wf(),
        old(pmm).wf(),
        forall|a: u64| #[trigger] old(pmm)@.contains(a) ==> old(mem)@.contains_key(a),
    ensures
        final(mem).wf(),
        final(pmm).wf(),
        buffers_given(
            *old(pmm),
            old(mem)@,
            final(pmm)@,
            final(mem)@,
            io_base,
            mac@,
            r.0,
            r.1@,
        ),
{
    broadcast use
        FrameBitmap::lemma_view,
        FrameBitmap::lemma_free_at_range,
        FrameBitmap::lemma_frame_range,
        PhysMemory::lemma_frame,
    ;

    let mut writes: Vec<PortIo> = Vec::new();
    let base = match pmm::alloc_contiguous(pmm, RX_BUFFER_FRAMES) {
        Some(a) => a,
        None => {
            return (None, writes);
        },
    };
    let ghost pool = without_ring(old(pmm)@, base);
    proof {
        assert(pmm@ =~= pool);
        let f = base as int / 4096;
        assert(old(pmm).free_at(f));
        assert(old(pmm).free_at(f + 1));
        assert(old(pmm).free_at(f + 2));
        assert(old(pmm)@.contains(base));
        assert(old(pmm)@.contains((base + 4096) as u64));
        assert(old(pmm)@.contains((base + 8192) as u64));
    }
    mem.zero(base);
    mem.zero(base + 4096);
    mem.zero(base + 8192);
    writes.push(PortIo::Write32(io_base.wrapping_add(REG_RX_BUF), base as u32));
    let mut tx_buffers: [u64; 4] = [0;4];
    let mut i: usize = 0;
    let ghost ring = writes@;
    let ghost m0 = mem@;
    assert(writes@ =~= ring + buffer_writes(io_base, pool, 0));
    while i < 4
        invariant
            i <= 4,
            mem.wf(),
            pmm.wf(),
            old(pmm).wf(),
            forall|a: u64| #[trigger] old(pmm)@.contains(a) ==> old(mem)@.contains_key(a),
            mem@.dom() == old(mem)@.dom(),
            m0 == ring_cleared(old(mem)@, base),
            ring_place(*old(pmm), base),
            pool == without_ring(old(pmm)@, base),
            ring == seq![PortIo::Write32(io_base.wrapping_add(REG_RX_BUF), base as u32)],
            pmm@ == pool_after(pool, i as nat),
            pmm@.subset_of(pool),
            mem@ == buffers_cleared(m0, pool, i as nat),
            writes@ == ring + buffer_writes(io_base, pool, i as nat),
            forall|k: int|
                0 <= k < i ==> #[trigger] pool_after(pool, k as nat) != Set::<u64>::empty(),
            forall|k: int|
                0 <= k < i ==> #[trigger] tx_buffers@[k] == buffer_at(pool, k) && pool.contains(
                    tx_buffers@[k],
                ) && !pmm@.contains(tx_buffers@[k]),
            forall|k: int, l: int|
                0 <= k < l < i ==> #[trigger] tx_buffers@[k] != #[trigger] tx_buffers@[l],
        decreases 4 - i,
    {
        let ghost before = pmm@;
        let buf = match pmm::alloc_frame(pmm) {
            Some(a) => a,
            None => {
                proof {
                    assert(writes@ =~= ring + buffer_writes(io_base, pool, i as nat) + Seq::<
                        PortIo,
                    >::empty());
                    assert(!no_ring_place(*old(pmm)));
                    assert(i < 4 && set_up(
                        *old(pmm),
                        old(mem)@,
                        pmm@,
                        mem@,
                        io_base,
                        writes@,
                        base,
                        i as int,
                    ));
                }
                assert(ran_short(*old(pmm), old(mem)@, pmm@, mem@, io_base, writes@));
                return (None, writes);
            },
        };
        assert(before.contains(buf));
        assert(old(pmm)@.contains(buf));
        mem.zero(buf);
        tx_buffers[i] = buf;
        writes.push(PortIo::Write32(io_base.wrapping_add(REG_TX_ADDR0 + (i as u16) * 4), buf as u32));
        proof {
            assert(pmm@ =~= pool_after(pool, (i + 1) as nat));
            assert(mem@ =~= buffers_cleared(m0, pool, (i + 1) as nat));
            assert(writes@ =~= ring + buffer_writes(io_base, pool, (i + 1) as nat));
            assert(mem@.dom() =~= old(mem)@.dom());
        }
        i += 1;
    }
    writes.push(PortIo::Write8(io_base.wrapping_add(REG_CMD), CMD_RX_ENABLE | CMD_TX_ENABLE));
    writes.push(PortIo::Write32(io_base.wrapping_add(REG_RX_CONFIG), RX_CONFIG));
    writes.push(PortIo::Write32(io_base.wrapping_add(REG_TX_CONFIG), TX_CONFIG));
    let nic = Nic { io_base, mac, tx_buffers, tx_next: 0, rx_buf_phys: base, rx_cur: 0 };
    proof {
        assert(writes@ =~= ring + buffer_writes(io_base, pool, 4) + enable_writes(io_base));
        assert(nic.tx_buffers@ =~= Seq::new(4, |i: int| buffer_at(pool, i)));
        assert(old(pmm)@.contains(base));
    }
    (Some(nic), writes)
}

// --- the whole way to a card -------------------------------------------------------

/// An access that a set-up asks for.
#[derive(Clone, Copy, PartialEq, Eq, Debug, Structural)]
pub enum CardAccess {
    Config(ConfigRead),
    Assign(ConfigWrite),
    Port(PortIo),
}

/// Where a set-up is.
#[derive(Clone, Copy, PartialEq, Eq, Debug, Structural)]
pub enum SetupStage {
    /// Search the bus.
    Search,
    /// Read the command word of the card.
    Command(PciDevice),
    /// Let the card access memory by itself; its command word was this.
    Master(PciDevice, u32),
    /// Read its first base address.
    Base(PciDevice),
    /// Wake it, reset it and read its address.
    Start,
    /// Tell it where its buffers are and turn it on; so many accesses are done.
    Program(usize),
    /// It can send and receive.
    Up,
    NoCard,
    /// Its registers are no I/O ports.
    NotPorts,
    /// It did not come out of its reset.
    Stuck,
    /// There are not enough frames for its buffers.
    NoFrames,
}

/// A set-up of the card, from the search on the bus to the last register. The
/// caller performs the accesses that it asks for and hands over what the reads
/// gave.
pub struct CardSetup {
    pub stage: SetupStage,
    pub scan: Scan,
    pub startup: Startup,
    pub writes: Vec<PortIo>,
    pub nic: Option<Nic>,
}

/// What a set-up holds.
#[verifier::ext_equal]
pub struct SetupState {
    pub stage: SetupStage,
    pub position: Position,
    pub found: Seq<PciDevice>,
    pub io_base: u16,
    pub start: StartupStage,
    pub mac: Seq<u8>,
    pub writes: Seq<PortIo>,
    pub nic: Option<Nic>,
}

impl View for CardSetup {
    type V = SetupState;

    open spec fn view(&self) -> SetupState {
        SetupState {
            stage: self.stage,
            position: self.scan.position,
            found: self.scan.found@,
            io_base: self.startup.io_base,
            start: self.startup.stage,
            mac: self.startup.mac@,
            writes: self.writes@,
            nic: self.nic,
        }
    }
}

impl SetupState {
    pub open spec fn over(self) -> bool {
        match self.stage {
            SetupStage::Up => true,
            SetupStage::NoCard => true,
            SetupStage::NotPorts => true,
            SetupStage::Stuck => true,
            SetupStage::NoFrames => true,
            _ => false,
        }
    }

    pub open spec fn wf(self) -> bool {
        &&& pci::position_ok(self.position)
        &&& self.mac.len() == 6
        &&& self.writes.len() <= 8
        &&& match self.stage {
            SetupStage::Search => self.position.slot < pci::SLOTS,
            SetupStage::Start => match self.start {
                StartupStage::Wake => true,
                StartupStage::Reset => true,
                StartupStage::Wait(n) => 0 < n <= PATIENCE,
                StartupStage::Address(i) => i < 6,
                _ => false,
            },
            SetupStage::Program(n) => n < self.writes.len(),
            SetupStage::Up => self.nic is Some,
            _ => true,
        }
    }
}

/// A set-up that has not begun.
pub open spec fn setup_start() -> SetupState {
    SetupState {
        stage: SetupStage::Search,
        position: pci::start(),
        found: Seq::empty(),
        io_base: 0,
        start: StartupStage::Wake,
        mac: Seq::new(6, |i: int| 0u8),
        writes: Seq::empty(),
        nic: None,
    }
}

/// The read of a word of the configuration of a device.
pub open spec fn word_of(d: PciDevice, offset: u8) -> ConfigRead {
    ConfigRead { bus: d.bus, device: d.device, function: d.function, offset }
}

/// The write that lets a device with this command word access memory by itself.
pub open spec fn master_write(d: PciDevice, word: u32) -> ConfigWrite {
    ConfigWrite {
        bus: d.bus,
        device: d.device,
        function: d.function,
        offset: pci::REG_COMMAND,
        value: pci::with_half(
            word,
            pci::REG_COMMAND,
            ((word % 0x1_0000) as u16) | pci::BUS_MASTER_ENABLE,
        ) as u32,
    }
}

/// The access that a set-up asks for.
pub open spec fn setup_access(s: SetupState) -> Option<CardAccess> {
    match s.stage {
        SetupStage::Search => Some(CardAccess::Config(pci::wanted(s.position))),
        SetupStage::Command(d) => Some(CardAccess::Config(word_of(d, pci::REG_COMMAND))),
        SetupStage::Master(d, word) => Some(CardAccess::Assign(master_write(d, word))),
        SetupStage::Base(d) => Some(CardAccess::Config(word_of(d, pci::REG_BAR0))),
        SetupStage::Start => match startup_access(s.io_base, s.start) {
            Some(io) => Some(CardAccess::Port(io)),
            None => None,
        },
        SetupStage::Program(n) => Some(CardAccess::Port(s.writes[n as int])),
        _ => None,
    }
}

/// The port in an I/O base address.
pub open spec fn port_of(bar0: u32) -> u16 {
    ((bar0 - bar0 % 4) % 0x1_0000) as u16
}

/// The step of a set-up whose access gave `value`: from state `s`, memory `m`
/// and the free frames of `pmm` to `s2`, `m2` and `pool2`.
pub open spec fn setup_next(
    s: SetupState,
    value: u32,
    pmm: FrameBitmap,
    m: Map<u64, Seq<u64>>,
    s2: SetupState,
    pool2: Set<u64>,
    m2: Map<u64, Seq<u64>>,
) -> bool {
    let byte = (value % 0x100) as u8;
    let start = startup_next(s.start, PATIENCE, byte);
    let mac = match s.start {
        StartupStage::Address(i) => s.mac.update(i as int, byte),
        _ => s.mac,
    };
    let started = SetupState { start, mac, ..s };
    if s.stage == SetupStage::Start && start == StartupStage::Ready {
        &&& buffers_given(pmm, m, pool2, m2, s.io_base, mac, s2.nic, s2.writes)
        &&& s2 == SetupState {
            stage: if s2.writes.len() > 0 {
                SetupStage::Program(0)
            } else {
                SetupStage::NoFrames
            },
            writes: s2.writes,
            nic: s2.nic,
            ..started
        }
    } else {
        &&& pool2 == pmm@
        &&& m2 == m
        &&& s2 == match s.stage {
            SetupStage::Search => {
                let position = pci::advance(s.position, value);
                let found = s.found + pci::completed(s.position, value);
                SetupState {
                    stage: if position.slot < pci::SLOTS {
                        SetupStage::Search
                    } else {
                        match card_among(found) {
                            Some(d) => SetupStage::Command(d),
                            None => SetupStage::NoCard,
                        }
                    },
                    position,
                    found,
                    ..s
                }
            },
            SetupStage::Command(d) => SetupState { stage: SetupStage::Master(d, value), ..s },
            SetupStage::Master(d, _) => SetupState { stage: SetupStage::Base(d), ..s },
            SetupStage::Base(d) => if value % 2 == 0 {
                SetupState { stage: SetupStage::NotPorts, ..s }
            } else {
                SetupState {
                    stage: SetupStage::Start,
                    io_base: port_of(value),
                    start: StartupStage::Wake,
                    mac: Seq::new(6, |i: int| 0u8),
                    ..s
                }
            },
            SetupStage::Start => if start == StartupStage::TimedOut {
                SetupState { stage: SetupStage::Stuck, ..started }
            } else {
                started
            },
            SetupStage::Program(n) => SetupState {
                stage: if n + 1 < s.writes.len() {
                    SetupStage::Program((n + 1) as usize)
                } else if s.nic is Some {
                    SetupStage::Up
                } else {
                    SetupStage::NoFrames
                },
                ..s
            },
            _ => s,
        }
    }
}

/// The most accesses that a set-up still asks for before it programs the card.
pub open spec fn setup_left(s: SetupState) -> int {
    match s.stage {
        SetupStage::Search => pci::reads_left(s.position) + PATIENCE + 30,
        SetupStage::Command(_) => PATIENCE + 29,
        SetupStage::Master(_, _) => PATIENCE + 28,
        SetupStage::Base(_) => PATIENCE + 27,
        SetupStage::Start => startup_left(s.start, PATIENCE) + 18,
        SetupStage::Program(n) => s.writes.len() - n,
        _ => 0,
    }
}

/// Sets up the card: it is searched for on the bus, gets leave to access memory,
/// is woken and reset, its address is read, and it gets its buffers. Both
/// directions are turned on before their settings are made.
pub fn init_full() -> (r: CardSetup)
    ensures
        r.wf(),
        r@ == setup_start(),
{
    let r = CardSetup {
        stage: SetupStage::Search,
        scan: Scan::new(),
        startup: Startup::new(0, PATIENCE),
        writes: Vec::new(),
        nic: None,
    };
    assert(r@ =~= setup_start());
    r
}

impl CardSetup {
    pub open spec fn wf(&self) -> bool {
        &&& self@.wf()
        &&& self.startup.wf()
        &&& self.startup.patience == PATIENCE
    }

    /// The next access. `None` once the card is up or cannot be set up.
    pub fn request(&self) -> (r: Option<CardAccess>)
        requires
            self.wf(),
        ensures
            r == setup_access(self@),
            r is None <==> self@.over(),
    {
        match self.stage {
            SetupStage::Search => match self.scan.request() {
                Some(read) => Some(CardAccess::Config(read)),
                None => None,
            },
            SetupStage::Command(d) => Some(
                CardAccess::Config(
                    ConfigRead {
                        bus: d.bus,
                        device: d.device,
                        function: d.function,
                        offset: pci::REG_COMMAND,
                    },
                ),
            ),
            SetupStage::Master(d, word) => Some(
                CardAccess::Assign(pci::enable_bus_master(&d, word)),
            ),
            SetupStage::Base(d) => Some(
                CardAccess::Config(
                    ConfigRead {
                        bus: d.bus,
                        device: d.device,
                        function: d.function,
                        offset: pci::REG_BAR0,
                    },
                ),
            ),
            SetupStage::Start => match self.startup.request() {
                Some(io) => Some(CardAccess::Port(io)),
                None => None,
            },
            SetupStage::Program(n) => Some(CardAccess::Port(self.writes[n])),
            _ => None,
        }
    }

    /// Takes what the access gave; `value` does not matter after a write.
    pub fn supply(&mut self, mem: &mut PhysMemory, pmm: &mut FrameBitmap, value: u32)
        requires
            old(self).wf(),
            !old(self)@.over(),
            old(mem).wf(),
            old(pmm).wf(),
            forall|a: u64| #[trigger] old(pmm)@.contains(a) ==> old(mem)@.contains_key(a),
        ensures
            final(self).wf(),
            final(mem).wf(),
            final(pmm).wf(),
            setup_next(
                old(self)@,
                value,
                *old(pmm),
                old(mem)@,
                final(self)@,
                final(pmm)@,
                final(mem)@,
            ),
    {
        let ghost s = self@;
        match self.stage {
            SetupStage::Search => {
                self.scan.supply(value);
                if self.scan.request().is_none() {
                    self.stage = match find_controller(&self.scan.found) {
                        Some(d) => SetupStage::Command(d),
                        None => SetupStage::NoCard,
                    };
                }
            },
            SetupStage::Command(d) => {
                self.stage = SetupStage::Master(d, value);
            },
            SetupStage::Master(d, _) => {
                self.stage = SetupStage::Base(d);
            },
            SetupStage::Base(_) => {
                match io_port(value) {
                    Some(io_base) => {
                        self.startup = Startup::new(io_base, PATIENCE);
                        self.stage = SetupStage::Start;
                    },
                    None => {
                        self.stage = SetupStage::NotPorts;
                    },
                }
            },
            SetupStage::Start => {
                self.startup.supply((value % 0x100) as u8);
                match self.startup.stage {
                    StartupStage::Ready => {
                        let (nic, writes) = give_buffers(
                            mem,
                            pmm,
                            self.startup.io_base,
                            self.startup.mac,
                        );
                        self.stage = if writes.len() > 0 {
                            SetupStage::Program(0)
                        } else {
                            SetupStage::NoFrames
                        };
                        self.nic = nic;
                        self.writes = writes;
                        proof {
                            lemma_given_length(
                                self@,
                                *old(pmm),
                                old(mem)@,
                                pmm@,
                                mem@,
                            );
                        }
                    },
                    StartupStage::TimedOut => {
                        self.stage = SetupStage::Stuck;
                    },
                    _ => {},
                }
            },
            SetupStage::Program(n) => {
                self.stage = if self.writes.len() - n > 1 {
                    SetupStage::Program(n + 1)
                } else if self.nic.is_some() {
                    SetupStage::Up
                } else {
                    SetupStage::NoFrames
                };
            },
            _ => {},
        }
    }
}

/// How the machine answers while a card is set up: its configuration space, what
/// the command register gives at each read, and the bytes of the address.
pub struct CardWorld {
    pub cfg: ConfigSpace,
    pub command: spec_fn(int) -> u8,
    pub address: spec_fn(int) -> u8,
}

/// Whether the card takes the reset bit back at one of the reads from the
/// `i`-th on, before patience ends.
pub open spec fn resets_from(w: CardWorld, i: int) -> bool {
    exists|k: int| i <= k < PATIENCE && #[trigger] (w.command)(k) & CMD_RESET == 0
}

/// The address of the card.
pub open spec fn address_in(w: CardWorld) -> Seq<u8> {
    Seq::new(6, |i: int| (w.address)(i))
}

/// What becomes of a set-up as far as the card decides.
pub enum Fate {
    NoCard,
    NotPorts,
    Stuck,
    /// The card starts: its ports and its address.
    Started(u16, Seq<u8>),
}

/// What becomes of a set-up: it needs a card, ports, and an end of the reset.
pub open spec fn fate_of(w: CardWorld, card: Option<PciDevice>) -> Fate {
    match card {
        None => Fate::NoCard,
        Some(d) => {
            let bar0 = (w.cfg)(word_of(d, pci::REG_BAR0));
            if bar0 % 2 == 0 {
                Fate::NotPorts
            } else if !resets_from(w, 0) {
                Fate::Stuck
            } else {
                Fate::Started(port_of(bar0), address_in(w))
            }
        },
    }
}

/// What becomes of a set-up that has come to state `s`.
pub open spec fn fate_from(w: CardWorld, s: SetupState) -> Fate {
    match s.stage {
        SetupStage::Search => fate_of(
            w,
            card_among(s.found + pci::still_to_find(w.cfg, s.position)),
        ),
        SetupStage::Command(d) => fate_of(w, Some(d)),
        SetupStage::Master(d, _) => fate_of(w, Some(d)),
        SetupStage::Base(d) => fate_of(w, Some(d)),
        SetupStage::Start => match s.start {
            StartupStage::Address(i) => Fate::Started(
                s.io_base,
                Seq::new(
                    6,
                    |j: int|
                        if j < i {
                            s.mac[j]
                        } else {
                            (w.address)(j)
                        },
                ),
            ),
            StartupStage::Wait(n) => if resets_from(w, PATIENCE - n) {
                Fate::Started(s.io_base, address_in(w))
            } else {
                Fate::Stuck
            },
            _ => if resets_from(w, 0) {
                Fate::Started(s.io_base, address_in(w))
            } else {
                Fate::Stuck
            },
        },
        SetupStage::NoCard => Fate::NoCard,
        SetupStage::NotPorts => Fate::NotPorts,
        SetupStage::Stuck => Fate::Stuck,
        _ => Fate::Started(s.io_base, s.mac),
    }
}

/// What the machine answers to the access of a set-up.
pub open spec fn answer_to(w: CardWorld, s: SetupState) -> u32 {
    match s.stage {
        SetupStage::Search => (w.cfg)(pci::wanted(s.position)),
        SetupStage::Command(d) => (w.cfg)(word_of(d, pci::REG_COMMAND)),
        SetupStage::Base(d) => (w.cfg)(word_of(d, pci::REG_BAR0)),
        SetupStage::Start => match s.start {
            StartupStage::Wait(n) => (w.command)(PATIENCE - n) as u32,
            StartupStage::Address(i) => (w.address)(i as int) as u32,
            _ => 0,
        },
        _ => 0,
    }
}

/// How far a set-up has come. A stage comes only after the one before it.
pub open spec fn rank(s: SetupState) -> int {
    match s.stage {
        SetupStage::Search => 0,
        SetupStage::Command(_) => 1,
        SetupStage::Master(_, _) => 2,
        SetupStage::Base(_) => 3,
        SetupStage::Start => 4,
        SetupStage::Program(_) => 5,
        SetupStage::Up => 6,
        _ => 0,
    }
}

/// Every step of a set-up keeps what becomes of it, takes it at most one stage
/// on, and brings its end nearer. Only the end of the start-up takes frames or
/// writes to memory.
pub proof fn law_setup_step(
    w: CardWorld,
    s: SetupState,
    pmm: FrameBitmap,
    m: Map<u64, Seq<u64>>,
    s2: SetupState,
    pool2: Set<u64>,
    m2: Map<u64, Seq<u64>>,
)
    requires
        s.wf(),
        !s.over(),
        setup_next(s, answer_to(w, s), pmm, m, s2, pool2, m2),
    ensures
        s2.wf(),
        fate_from(w, s2) == fate_from(w, s),
        rank(s2) <= rank(s) + 1,
        s2.over() || rank(s) <= rank(s2),
        setup_left(s2) < setup_left(s),
        0 <= setup_left(s2),
        s2.stage == SetupStage::Up ==> s.nic == s2.nic && rank(s) == 5,
        s2.stage is Program && s.stage == SetupStage::Start ==> (s2.nic matches Some(nic)
            ==> nic.io_base == s2.io_base && nic.mac@ == s2.mac),
        !(s.stage == SetupStage::Start && s.start == StartupStage::Address(5)) ==> pool2 == pmm@
            && m2 == m,
{
    let value = answer_to(w, s);
    let byte = (value % 0x100) as u8;
    match s.stage {
        SetupStage::Search => {
            pci::law_scan_finds_all(w.cfg, s.position, s.found);
            pci::law_scan_finds_all(w.cfg, s2.position, s2.found);
            if s2.position.slot >= pci::SLOTS {
                assert(s2.found + Seq::<PciDevice>::empty() =~= s2.found);
            }
        },
        SetupStage::Start => {
            match s.start {
                StartupStage::Wait(n) => {
                    let i = PATIENCE - n;
                    assert(byte == (w.command)(i));
                    if byte & CMD_RESET == 0 {
                        assert(resets_from(w, i));
                        assert(Seq::new(
                            6,
                            |j: int|
                                if j < 0 {
                                    s2.mac[j]
                                } else {
                                    (w.address)(j)
                                },
                        ) =~= address_in(w));
                    } else {
                        if resets_from(w, i) {
                            let k = choose|k: int|
                                i <= k < PATIENCE && #[trigger] (w.command)(k) & CMD_RESET == 0;
                            assert(k != i);
                            assert(resets_from(w, i + 1));
                        }
                        if resets_from(w, i + 1) {
                            assert(resets_from(w, i));
                        }
                    }
                },
                StartupStage::Address(i) => {
                    assert(byte == (w.address)(i as int));
                    let before = Seq::new(
                        6,
                        |j: int|
                            if j < i {
                                s.mac[j]
                            } else {
                                (w.address)(j)
                            },
                    );
                    if i == 5 {
                        assert(s2.mac =~= before);
                        lemma_given_length(s2, pmm, m, pool2, m2);
                    } else {
                        assert(before =~= Seq::new(
                            6,
                            |j: int|
                                if j < i + 1 {
                                    s2.mac[j]
                                } else {
                                    (w.address)(j)
                                },
                        ));
                    }
                },
                _ => {},
            }
        },
        _ => {},
    }
}

/// There are at most eight accesses to program a card.
proof fn lemma_given_length(
    s: SetupState,
    pmm: FrameBitmap,
    m: Map<u64, Seq<u64>>,
    pool2: Set<u64>,
    m2: Map<u64, Seq<u64>>,
)
    requires
        buffers_given(pmm, m, pool2, m2, s.io_base, s.mac, s.nic, s.writes),
    ensures
        s.writes.len() <= 8,
{
    if s.nic is None && !no_ring_place(pmm) {
        let (base, n) = choose|base: u64, n: int|
            n < 4 && #[trigger] set_up(pmm, m, pool2, m2, s.io_base, s.writes, base, n);
    }
}

/// Whether `s2` may follow `s` in a set-up on this machine.
pub open spec fn follows(w: CardWorld, s: SetupState, s2: SetupState) -> bool {
    !s.over() && exists|pmm: FrameBitmap, m: Map<u64, Seq<u64>>, pool2: Set<u64>, m2: Map<
        u64,
        Seq<u64>,
    >| #[trigger] setup_next(s, answer_to(w, s), pmm, m, s2, pool2, m2)
}

/// Whether these are the states of a set-up on this machine, from its start on.
pub open spec fn is_setup(w: CardWorld, run: Seq<SetupState>) -> bool {
    &&& run.len() > 0
    &&& run[0] == setup_start()
    &&& forall|i: int|
        0 <= i < run.len() - 1 ==> follows(w, #[trigger] run[i], run[i + 1])
}

/// The card on this machine.
pub open spec fn card_in(w: CardWorld) -> Option<PciDevice> {
    card_among(pci::enumerate(w.cfg))
}

/// Whether state `s` is about to let the card access memory by itself.
pub open spec fn frees_bus(w: CardWorld, s: SetupState) -> bool {
    s.stage matches SetupStage::Master(d, word) && card_in(w) == Some(d) && setup_access(s) == Some(
        CardAccess::Assign(master_write(d, word)),
    )
}

/// What holds at every point of a set-up.
proof fn lemma_setup_so_far(w: CardWorld, run: Seq<SetupState>, n: int)
    requires
        is_setup(w, run),
        0 <= n < run.len(),
    ensures
        run[n].wf(),
        fate_from(w, run[n]) == fate_of(w, card_in(w)),
        match run[n].stage {
            SetupStage::Search => run[n].found + pci::still_to_find(w.cfg, run[n].position)
                == pci::enumerate(w.cfg),
            SetupStage::Command(d) => card_in(w) == Some(d),
            SetupStage::Master(d, _) => card_in(w) == Some(d),
            SetupStage::Base(d) => card_in(w) == Some(d),
            _ => true,
        },
        rank(run[n]) >= 3 ==> exists|k: int| 0 <= k < n && frees_bus(w, #[trigger] run[k]),
        rank(run[n]) >= 5 ==> (run[n].nic matches Some(nic) ==> nic.io_base == run[n].io_base
            && nic.mac@ == run[n].mac),
    decreases n,
{
    if n == 0 {
        pci::law_scan_finds_all(w.cfg, pci::start(), Seq::empty());
        let all = pci::enumerate(w.cfg);
        assert(Seq::<PciDevice>::empty() + all =~= all);
    } else {
        lemma_setup_so_far(w, run, n - 1);
        let (s, s2) = (run[n - 1], run[n]);
        assert(run[n - 1 + 1] == s2);
        assert(follows(w, s, s2));
        let (pmm, m, pool2, m2) = choose|
            pmm: FrameBitmap,
            m: Map<u64, Seq<u64>>,
            pool2: Set<u64>,
            m2: Map<u64, Seq<u64>>,
        | #[trigger] setup_next(s, answer_to(w, s), pmm, m, s2, pool2, m2);
        law_setup_step(w, s, pmm, m, s2, pool2, m2);
        if s.stage == SetupStage::Search {
            pci::law_scan_finds_all(w.cfg, s.position, s.found);
            pci::law_scan_finds_all(w.cfg, s2.position, s2.found);
            assert(s2.found + Seq::<PciDevice>::empty() =~= s2.found);
        }
        if rank(s2) >= 3 {
            if rank(s) >= 3 {
                let k = choose|k: int| 0 <= k < n - 1 && frees_bus(w, #[trigger] run[k]);
                assert(0 <= k < n && frees_bus(w, run[k]));
            } else {
                assert(frees_bus(w, run[n - 1]));
            }
        }
    }
}

/// A card comes up only through all the stages: it is on the bus, it was let
/// access memory by itself, its registers are I/O ports, it came out of its
/// reset in time, and the address is the one in its registers.
pub proof fn law_card_needs_every_stage(w: CardWorld, run: Seq<SetupState>)
    requires
        is_setup(w, run),
        run.last().stage == SetupStage::Up,
    ensures
        ({
            &&& card_in(w) matches Some(d)
            &&& (w.cfg)(word_of(d, pci::REG_BAR0)) % 2 == 1
            &&& resets_from(w, 0)
            &&& exists|k: int| 0 <= k < run.len() && frees_bus(w, #[trigger] run[k])
            &&& run.last().nic matches Some(nic)
            &&& nic.io_base == port_of((w.cfg)(word_of(d, pci::REG_BAR0)))
            &&& nic.mac@ == address_in(w)
        }),
{
    lemma_setup_so_far(w, run, run.len() - 1);
}

/// Without a card, or with one whose registers are no I/O ports or that does not
/// come out of its reset, no set-up comes as far as taking frames.
pub proof fn law_no_card_costs_nothing(w: CardWorld, run: Seq<SetupState>)
    requires
        is_setup(w, run),
        !(fate_of(w, card_in(w)) is Started),
    ensures
        forall|i: int|
            0 <= i < run.len() ==> {
                &&& !((#[trigger] run[i]).stage == SetupStage::Start && run[i].start
                    == StartupStage::Address(5))
                &&& run[i].stage != SetupStage::Up
            },
{
    assert forall|i: int| 0 <= i < run.len() implies {
        &&& !((#[trigger] run[i]).stage == SetupStage::Start && run[i].start
            == StartupStage::Address(5))
        &&& run[i].stage != SetupStage::Up
    } by {
        lemma_setup_so_far(w, run, i);
    }
}

/// The write that frees the bus sets the bit for it, and keeps every other bit of
/// the command register.
pub proof fn law_master_write_sets_its_bit(d: PciDevice, word: u32)
    ensures
        master_write(d, word).value & 4 == 4,
        master_write(d, word).value | 4 == word | 4,
{
    let low = (word % 0x1_0000) as u16;
    let wide = low as u32;
    let v = master_write(d, word).value;
    assert((low | 4u16) as u32 == wide | 4u32) by (bit_vector)
        requires
            wide == low as u32,
    ;
    assert(word % 0x1_0000u32 == word & 0xFFFFu32) by (bit_vector);
    assert((word & 0xFFFFu32) | 4u32 <= 0xFFFFu32) by (bit_vector);
    assert(v == word - wide + (wide | 4u32));
    assert(v & 4 == 4 && v | 4 == word | 4) by (bit_vector)
        requires
            wide == word & 0xFFFFu32,
            v == word - wide + (wide | 4u32),
    ;
}

/// What is printed when a set-up is over.
pub open spec fn setup_text(s: SetupState) -> Seq<u8> {
    match s.stage {
        SetupStage::NotPorts => fmt::text(BAD_BAR@),
        SetupStage::Stuck => fmt::text(STUCK@),
        SetupStage::Up => {
            let nic = s.nic->0;
            fmt::text("[rtl8139] TX/RX inicializados — RX buffer @ 0x"@) + fmt::hex(
                nic.rx_buf_phys as nat,
            ) + fmt::text(" ("@) + fmt::decimal(RX_BUFFER_FRAMES as nat) + fmt::text(
                " frames), MAC "@,
            ) + mac_text(nic.mac@) + fmt::text("\n"@)
        },
        _ => Seq::empty(),
    }
}

impl CardSetup {
    /// What is printed when a set-up is over.
    pub fn report(&self) -> (r: Vec<u8>)
        requires
            self.wf(),
            self@.over(),
        ensures
            r@ == setup_text(self@),
    {
        let mut out: Vec<u8> = Vec::new();
        match self.stage {
            SetupStage::NotPorts => {
                fmt::push_text(&mut out, BAD_BAR);
            },
            SetupStage::Stuck => {
                fmt::push_text(&mut out, STUCK);
            },
            SetupStage::Up => {
                if let Some(nic) = &self.nic {
                    fmt::push_text(
                        &mut out,
                        "[rtl8139] TX/RX inicializados — RX buffer @ 0x",
                    );
                    fmt::push_hex(&mut out, nic.rx_buf_phys);
                    fmt::push_text(&mut out, " (");
                    fmt::push_decimal(&mut out, RX_BUFFER_FRAMES as u64);
                    fmt::push_text(&mut out, " frames), MAC ");
                    push_mac(&mut out, &nic.mac);
                    fmt::push_text(&mut out, "\n");
                }
            },
            _ => {},
        }
        assert(out@ =~= setup_text(self@));
        out
    }

    /// The card, if it is up.
    pub fn card(self) -> (r: Option<Nic>)
        requires
            self.wf(),
        ensures
            r == if self.stage == SetupStage::Up {
                self.nic
            } else {
                None
            },
    {
        match self.stage {
            SetupStage::Up => self.nic,
            _ => None,
        }
    }
}

// --- sending -----------------------------------------------------------------------

/// Where a transmission is.
#[derive(Clone, Copy, PartialEq, Eq, Debug, Structural)]
pub enum SendStage {
    /// Write the length, which starts it.
    Start(u32),
    /// Read the status; this many reads are left.
    Wait(u32),
    Sent,
    TimedOut,
}

/// A transmission under way. The caller performs the accesses that it asks for
/// and hands over what the reads gave.
#[derive(Clone, Copy, PartialEq, Eq, Debug, Structural)]
pub struct Transmission {
    /// The status register of its buffer.
    pub register: u16,
    pub stage: SendStage,
}

/// The stage after one whose access gave `status`.
pub open spec fn send_next(stage: SendStage, status: u32) -> SendStage {
    match stage {
        SendStage::Start(_) => SendStage::Wait(PATIENCE),
        SendStage::Wait(n) => if status & TX_STAT_OK != 0 {
            SendStage::Sent
        } else if n <= 1 {
            SendStage::TimedOut
        } else {
            SendStage::Wait((n - 1) as u32)
        },
        s => s,
    }
}

/// The most accesses that are still to come.
pub open spec fn send_left(stage: SendStage) -> int {
    match stage {
        SendStage::Start(_) => PATIENCE + 1,
        SendStage::Wait(n) => n as int,
        _ => 0,
    }
}

impl Transmission {
    pub open spec fn wf(&self) -> bool {
        self.stage matches SendStage::Wait(n) ==> n > 0
    }

    pub open spec fn over(&self) -> bool {
        self.stage == SendStage::Sent || self.stage == SendStage::TimedOut
    }

    /// The next access. `None` once the transmission is over.
    pub fn request(&self) -> (r: Option<PortIo>)
        ensures
            r == match self.stage {
                SendStage::Start(len) => Some(PortIo::Write32(self.register, len)),
                SendStage::Wait(_) => Some(PortIo::Read32(self.register)),
                _ => None,
            },
            r is None <==> self.over(),
    {
        match self.stage {
            SendStage::Start(len) => Some(PortIo::Write32(self.register, len)),
            SendStage::Wait(_) => Some(PortIo::Read32(self.register)),
            SendStage::Sent => None,
            SendStage::TimedOut => None,
        }
    }

    /// Takes what the access gave; `status` does not matter after a write.
    pub fn supply(&mut self, status: u32)
        requires
            old(self).wf(),
            !old(self).over(),
        ensures
            final(self).wf(),
            final(self).register == old(self).register,
            final(self).stage == send_next(old(self).stage, status),
            send_left(final(self).stage) < send_left(old(self).stage),
    {
        match self.stage {
            SendStage::Start(_) => {
                self.stage = SendStage::Wait(PATIENCE);
            },
            SendStage::Wait(n) => {
                self.stage = if status & TX_STAT_OK != 0 {
                    SendStage::Sent
                } else if n <= 1 {
                    SendStage::TimedOut
                } else {
                    SendStage::Wait(n - 1)
                };
            },
            SendStage::Sent => {},
            SendStage::TimedOut => {},
        }
    }

    /// How a transmission that is over ended.
    pub fn result(&self) -> (r: Result<(), &'static str>)
        requires
            self.over(),
        ensures
            r == if self.stage == SendStage::Sent {
                Ok(())
            } else {
                Err::<(), &'static str>(ERR_TX_TIMEOUT)
            },
    {
        match self.stage {
            SendStage::Sent => Ok(()),
            _ => Err(ERR_TX_TIMEOUT),
        }
    }
}

/// A frame with zeros up to the smallest length.
pub open spec fn padded(data: Seq<u8>) -> Seq<u8> {
    if data.len() >= MIN_FRAME {
        data
    } else {
        data + Seq::new((MIN_FRAME - data.len()) as nat, |i: int| 0u8)
    }
}

/// The transmit buffer after this one.
pub open spec fn next_buffer(slot: int) -> int {
    (slot + 1) % 4
}

/// The card after a frame was put into its next transmit buffer.
pub open spec fn nic_after_send(nic: Nic) -> Nic {
    Nic { tx_next: next_buffer(nic.tx_next as int) as u8, ..nic }
}

/// Memory after a frame was put into the next transmit buffer.
pub open spec fn mem_after_send(m: Map<u64, Seq<u64>>, nic: Nic, data: Seq<u8>) -> Map<
    u64,
    Seq<u64>,
> {
    let buf = nic.tx_buffers@[nic.tx_next as int];
    m.insert(buf, mem::page_with(m[buf], 0, padded(data)))
}

/// What remains to be done to send a frame from the next transmit buffer.
pub open spec fn transmission_of(nic: Nic, data: Seq<u8>) -> Transmission {
    Transmission {
        register: nic.io_base.wrapping_add((REG_TX_STATUS0 + 4 * nic.tx_next) as u16),
        stage: SendStage::Start(padded(data).len() as u32),
    }
}

/// Sends a whole Ethernet frame: puts it into the next transmit buffer. The
/// transmission that comes back does the rest.
pub fn send(nic: &mut Nic, mem: &mut PhysMemory, data: &[u8]) -> (r: Result<
    Transmission,
    &'static str,
>)
    requires
        old(mem).wf(),
        old(nic).wf(old(mem)@),
    ensures
        final(mem).wf(),
        final(nic).wf(final(mem)@),
        if data@.len() > TX_BUFFER_SIZE {
            &&& r == Err::<Transmission, &'static str>(ERR_TOO_LARGE)
            &&& *final(nic) == *old(nic)
            &&& final(mem)@ == old(mem)@
        } else {
            &&& r == Ok::<Transmission, &'static str>(transmission_of(*old(nic), data@))
            &&& *final(nic) == nic_after_send(*old(nic))
            &&& final(mem)@ == mem_after_send(old(mem)@, *old(nic), data@)
        },
        r matches Ok(t) ==> t.wf(),
{
    if data.len() > TX_BUFFER_SIZE {
        return Err(ERR_TOO_LARGE);
    }
    let slot = nic.tx_next;
    nic.tx_next = (nic.tx_next + 1) % 4;
    let buf = nic.tx_buffers[slot as usize];
    let mut frame: Vec<u8> = Vec::new();
    let mut i: usize = 0;
    while i < data.len()
        invariant
            i <= data@.len(),
            frame@ == data@.subrange(0, i as int),
        decreases data@.len() - i,
    {
        frame.push(data[i]);
        i += 1;
        assert(frame@ =~= data@.subrange(0, i as int));
    }
    assert(frame@ =~= data@);
    while frame.len() < MIN_FRAME
        invariant
            padded(frame@) == padded(data@),
            data@.len() <= frame@.len() <= TX_BUFFER_SIZE,
        ensures
            frame@ == padded(data@),
            frame@.len() <= TX_BUFFER_SIZE,
        decreases MIN_FRAME - frame@.len(),
    {
        let ghost before = frame@;
        frame.push(0);
        assert(padded(frame@) =~= padded(before));
    }
    let len = frame.len() as u32;
    mem.write_bytes(buf, 0, frame.as_slice());
    Ok(
        Transmission {
            register: nic.io_base.wrapping_add(REG_TX_STATUS0 + (slot as u16) * 4),
            stage: SendStage::Start(len),
        },
    )
}

// --- receiving ---------------------------------------------------------------------

/// What there was to receive.
pub enum Received {
    /// The ring is empty.
    Empty,
    /// The packet has an error; its status.
    Corrupt(u16),
    /// The packet without its checksum, and the access that gives its room back.
    Packet(Vec<u8>, PortIo),
}

/// Byte `off` from the start of the receive ring. A length in a header may lead
/// past the ring: into the memory behind it, and past the end of all memory, where
/// nothing answers and every bit reads as one.
pub open spec fn ring_byte(m: Map<u64, Seq<u64>>, base: u64, off: int) -> u8 {
    let f = (base + off / 4096 * 4096) as u64;
    if m.contains_key(f) {
        mem::page_byte(m[f], off % 4096)
    } else {
        0xFF
    }
}

/// The 16-bit value at `off` in the receive ring.
pub open spec fn ring_u16(m: Map<u64, Seq<u64>>, base: u64, off: int) -> int {
    ring_byte(m, base, off) + 0x100 * ring_byte(m, base, off + 1)
}

/// The bytes of a packet at `cur` whose header says `len`: that includes the
/// four bytes of the checksum.
pub open spec fn packet_at(m: Map<u64, Seq<u64>>, base: u64, cur: int, len: int) -> Seq<u8> {
    Seq::new(
        (if len < 4 {
            0
        } else {
            len - 4
        }) as nat,
        |i: int| ring_byte(m, base, cur + 4 + i),
    )
}

/// Where the packet after one at `cur` starts: behind its header and bytes,
/// rounded up to four, from the front again at the end of the ring.
pub open spec fn packet_after(cur: int, len: int) -> int {
    (cur + (4 + len + 3) / 4 * 4) % RX_LOGICAL_SIZE as int
}

/// The length of the packet that waits in the ring. `None` if there is none that
/// can be taken out.
pub open spec fn waiting_len(nic: Nic, m: Map<u64, Seq<u64>>, cmd: u8) -> Option<int> {
    let (base, cur) = (nic.rx_buf_phys, nic.rx_cur as int);
    if cmd & CMD_BUF_EMPTY != 0 || (ring_u16(m, base, cur) as u16) & RX_STAT_OK == 0 {
        None
    } else {
        Some(ring_u16(m, base, cur + 2))
    }
}

/// The packet that waits in the ring, without its checksum.
pub open spec fn waiting_packet(nic: Nic, m: Map<u64, Seq<u64>>, cmd: u8) -> Option<Seq<u8>> {
    match waiting_len(nic, m, cmd) {
        Some(len) => Some(packet_at(m, nic.rx_buf_phys, nic.rx_cur as int, len)),
        None => None,
    }
}

/// What is printed of a packet with an error at the front of the ring.
pub open spec fn poll_text(nic: Nic, m: Map<u64, Seq<u64>>, cmd: u8) -> Seq<u8> {
    let status = ring_u16(m, nic.rx_buf_phys, nic.rx_cur as int) as u16;
    if cmd & CMD_BUF_EMPTY == 0 && status & RX_STAT_OK == 0 {
        corrupt_text(status)
    } else {
        Seq::empty()
    }
}

/// What is logged of a packet that arrived damaged.
pub open spec fn corrupt_text(status: u16) -> Seq<u8> {
    fmt::text("[rtl8139] paquete RX con error, status=0x"@) + fmt::hex4(status) + fmt::text("\n"@)
}

fn log_corrupt(log: &mut Vec<u8>, status: u16)
    ensures
        final(log)@ == old(log)@ + corrupt_text(status),
{
    fmt::push_text(log, "[rtl8139] paquete RX con error, status=0x");
    fmt::push_hex4(log, status);
    fmt::push_text(log, "\n");
    assert(log@ =~= old(log)@ + corrupt_text(status));
}

/// The card after the packet that waits was taken out.
pub open spec fn nic_after_receive(nic: Nic, m: Map<u64, Seq<u64>>, cmd: u8) -> Nic {
    match waiting_len(nic, m, cmd) {
        Some(len) => Nic { rx_cur: packet_after(nic.rx_cur as int, len) as u32, ..nic },
        None => nic,
    }
}

/// The access that gives the room of packets before `cur` back. The card keeps
/// a margin of 16 bytes.
pub open spec fn acknowledgement(io_base: u16, cur: int) -> PortIo {
    PortIo::Write16(
        io_base.wrapping_add(REG_CAPR),
        ((cur + 0x1_0000 - 16) % 0x1_0000) as u16,
    )
}

fn ring_read(mem: &PhysMemory, base: u64, off: u32) -> (r: u8)
    requires
        mem.wf(),
        mem@.contains_key(base),
    ensures
        r == ring_byte(mem@, base, off as int),
{
    broadcast use PhysMemory::lemma_frame;

    let frame = base + (off / 4096 * 4096) as u64;
    if mem.contains(frame) {
        mem.read_byte(frame, (off % 4096) as usize)
    } else {
        0xFF
    }
}

/// Takes a packet out of the receive ring, if there is one. `cmd` is what the
/// command register holds. Does not wait.
#[verifier::rlimit(30)]
pub fn poll_rx(nic: &mut Nic, mem: &PhysMemory, cmd: u8, log: &mut Vec<u8>) -> (r: Received)
    requires
        mem.wf(),
        old(nic).wf(mem@),
    ensures
        final(nic).wf(mem@),
        final(log)@ == old(log)@ + poll_text(*old(nic), mem@, cmd),
        *final(nic) == nic_after_receive(*old(nic), mem@, cmd),
        match waiting_packet(*old(nic), mem@, cmd) {
            Some(p) => r matches Received::Packet(data, ack) && data@ == p && ack
                == acknowledgement(old(nic).io_base, final(nic).rx_cur as int),
            None => {
                let (base, cur) = (old(nic).rx_buf_phys, old(nic).rx_cur as int);
                let status = ring_u16(mem@, base, cur) as u16;
                r == if cmd & CMD_BUF_EMPTY != 0 {
                    Received::Empty
                } else {
                    Received::Corrupt(status)
                }
            },
        },
{
    assert(log@ + Seq::<u8>::empty() =~= log@);
    if cmd & CMD_BUF_EMPTY != 0 {
        return Received::Empty;
    }
    let base = nic.rx_buf_phys;
    let cur = nic.rx_cur;
    let status = ring_read(mem, base, cur) as u16 + 0x100 * (ring_read(mem, base, cur + 1) as u16);
    let rx_len = ring_read(mem, base, cur + 2) as u16 + 0x100 * (ring_read(mem, base, cur + 3)
        as u16);
    if status & RX_STAT_OK == 0 {
        log_corrupt(log, status);
        return Received::Corrupt(status);
    }
    let payload_len: u32 = if rx_len < 4 {
        0
    } else {
        rx_len as u32 - 4
    };
    let mut packet: Vec<u8> = Vec::new();
    let mut i: u32 = 0;
    while i < payload_len
        invariant
            i <= payload_len,
            mem.wf(),
            nic.wf(mem@),
            base == nic.rx_buf_phys,
            cur < 8192,
            payload_len <= 0xFFFF,
            packet@ == Seq::new(i as nat, |k: int| ring_byte(mem@, base, cur + 4 + k)),
        decreases payload_len - i,
    {
        packet.push(ring_read(mem, base, cur + 4 + i));
        i += 1;
        assert(packet@ =~= Seq::new(i as nat, |k: int| ring_byte(mem@, base, cur + 4 + k)));
    }
    assert(packet@ =~= packet_at(mem@, base, cur as int, rx_len as int));
    let advance = (4 + rx_len as u32 + 3) / 4 * 4;
    nic.rx_cur = (cur + advance) % RX_LOGICAL_SIZE;
    let ack = PortIo::Write16(
        nic.io_base.wrapping_add(REG_CAPR),
        ((nic.rx_cur + 0x1_0000 - 16) % 0x1_0000) as u16,
    );
    Received::Packet(packet, ack)
}

// --- laws --------------------------------------------------------------------------

/// Four frames in a row go to four different buffers, and the fifth to the first
/// one again.
pub proof fn law_buffers_take_turns(slot: int)
    requires
        0 <= slot < 4,
    ensures
        ({
            let (a, b, c) = (
                next_buffer(slot),
                next_buffer(next_buffer(slot)),
                next_buffer(next_buffer(next_buffer(slot))),
            );
            &&& slot != a && slot != b && slot != c && a != b && a != c && b != c
            &&& next_buffer(c) == slot
        }),
{
}

/// The stage that a start-up reaches with the first `n` of these answers.
pub open spec fn startup_run(patience: u32, answers: Seq<u8>, n: nat) -> StartupStage
    decreases n,
{
    if n == 0 {
        StartupStage::Wake
    } else {
        startup_next(startup_run(patience, answers, (n - 1) as nat), patience, answers[n - 1])
    }
}

/// While the card resets, a start-up waits.
proof fn lemma_waiting(patience: u32, answers: Seq<u8>, k: nat)
    requires
        k < patience,
        forall|i: int| 2 <= i < 2 + k ==> #[trigger] answers[i] & CMD_RESET != 0,
    ensures
        startup_run(patience, answers, k + 2) == StartupStage::Wait((patience - k) as u32),
    decreases k,
{
    reveal_with_fuel(startup_run, 3);
    if k > 0 {
        lemma_waiting(patience, answers, (k - 1) as nat);
        assert(answers[k as int + 1] & CMD_RESET != 0);
    }
}

/// A card whose reset ends within the patience gets ready, with six more reads
/// for its address.
pub proof fn law_reset_card_gets_ready(patience: u32, answers: Seq<u8>, k: nat)
    requires
        k < patience,
        forall|i: int| 2 <= i < 2 + k ==> #[trigger] answers[i] & CMD_RESET != 0,
        answers[2 + k as int] & CMD_RESET == 0,
    ensures
        startup_run(patience, answers, k + 9) == StartupStage::Ready,
{
    lemma_waiting(patience, answers, k);
    reveal_with_fuel(startup_run, 8);
}

/// A card whose reset does not end is given up after as many reads as the
/// patience allows.
pub proof fn law_stuck_card_times_out(patience: u32, answers: Seq<u8>)
    requires
        patience > 0,
        forall|i: int| 2 <= i < 2 + patience ==> #[trigger] answers[i] & CMD_RESET != 0,
    ensures
        startup_run(patience, answers, (patience + 2) as nat) == StartupStage::TimedOut,
{
    lemma_waiting(patience, answers, (patience - 1) as nat);
    assert(answers[patience + 1] & CMD_RESET != 0);
}

/// A packet as a card puts it into the ring is what is taken out of it: header
/// with status and length, then the bytes and four of checksum.
pub proof fn law_received_is_what_was_put(
    m: Map<u64, Seq<u64>>,
    base: u64,
    cur: int,
    data: Seq<u8>,
)
    requires
        forall|i: int|
            0 <= i < data.len() ==> ring_byte(m, base, cur + 4 + i) == #[trigger] data[i],
    ensures
        packet_at(m, base, cur, data.len() as int + 4) == data,
{
    assert(packet_at(m, base, cur, data.len() as int + 4) =~= data);
}

/// The byte of memory at physical address `a`.
pub open spec fn phys_byte(m: Map<u64, Seq<u64>>, a: int) -> u8 {
    mem::page_byte(m[(a - a % 4096) as u64], a % 4096)
}

/// A frame that the card put into the ring, behind a header with the good bit and
/// the length with the four bytes of the checksum, is what is received. The next
/// one is then looked for at the first multiple of four behind it, from the front
/// of the ring again at its end, and the card is told so with its margin of 16
/// bytes.
pub proof fn law_frame_in_the_ring_is_received(
    nic: Nic,
    m: Map<u64, Seq<u64>>,
    cmd: u8,
    data: Seq<u8>,
)
    requires
        nic.wf(m),
        cmd % 2 == 0,
        data.len() <= 1536,
        phys_byte(m, nic.rx_buf_phys + nic.rx_cur) % 2 == 1,
        phys_byte(m, nic.rx_buf_phys + nic.rx_cur + 2) + 0x100 * phys_byte(
            m,
            nic.rx_buf_phys + nic.rx_cur + 3,
        ) == data.len() + 4,
        forall|i: int|
            0 <= i < data.len() ==> #[trigger] data[i] == phys_byte(
                m,
                nic.rx_buf_phys + nic.rx_cur + 4 + i,
            ),
    ensures
        waiting_packet(nic, m, cmd) == Some(data),
        ({
            let next = nic_after_receive(nic, m, cmd).rx_cur as int;
            let end = nic.rx_cur + 4 + data.len() + 4;
            &&& next < 8192
            &&& next % 4 == 0
            &&& end <= next < end + 4 || end <= next + 8192 < end + 4
            &&& nic_after_receive(nic, m, cmd) == Nic { rx_cur: next as u32, ..nic }
            &&& next >= 16 ==> acknowledgement(nic.io_base, next) == PortIo::Write16(
                nic.io_base.wrapping_add(0x38),
                (next - 16) as u16,
            )
            &&& next < 16 ==> acknowledgement(nic.io_base, next) == PortIo::Write16(
                nic.io_base.wrapping_add(0x38),
                (0xFFF0 + next) as u16,
            )
        }),
{
    lemma_header_read(nic, m, cmd, data.len() as int + 4);
    lemma_data_read(nic, m, data);
    lemma_next_place(nic.rx_cur as int, data.len() as int + 4);
}

proof fn lemma_header_read(nic: Nic, m: Map<u64, Seq<u64>>, cmd: u8, len: int)
    requires
        nic.wf(m),
        cmd % 2 == 0,
        phys_byte(m, nic.rx_buf_phys + nic.rx_cur) % 2 == 1,
        phys_byte(m, nic.rx_buf_phys + nic.rx_cur + 2) + 0x100 * phys_byte(
            m,
            nic.rx_buf_phys + nic.rx_cur + 3,
        ) == len,
    ensures
        waiting_len(nic, m, cmd) == Some(len),
{
    let (base, cur) = (nic.rx_buf_phys, nic.rx_cur as int);
    lemma_in_ring(nic, m, cur);
    lemma_in_ring(nic, m, cur + 2);
    lemma_in_ring(nic, m, cur + 3);
    lemma_good_bit(ring_byte(m, base, cur), ring_byte(m, base, cur + 1), cmd);
}

proof fn lemma_good_bit(lo: u8, hi: u8, cmd: u8)
    ensures
        ((lo + 0x100 * hi) as u16 & RX_STAT_OK == 0) == (lo % 2 == 0),
        (cmd & CMD_BUF_EMPTY == 0) == (cmd % 2 == 0),
{
    let status = (lo + 0x100 * hi) as u16;
    assert(status % 2 == lo % 2);
    assert(status & 1 == status % 2) by (bit_vector);
    assert(cmd & 1 == cmd % 2) by (bit_vector);
}

proof fn lemma_data_read(nic: Nic, m: Map<u64, Seq<u64>>, data: Seq<u8>)
    requires
        nic.wf(m),
        data.len() <= 1536,
        forall|i: int|
            0 <= i < data.len() ==> #[trigger] data[i] == phys_byte(
                m,
                nic.rx_buf_phys + nic.rx_cur + 4 + i,
            ),
    ensures
        packet_at(m, nic.rx_buf_phys, nic.rx_cur as int, data.len() as int + 4) == data,
{
    let (base, cur) = (nic.rx_buf_phys, nic.rx_cur as int);
    let p = packet_at(m, base, cur, data.len() as int + 4);
    assert forall|i: int| 0 <= i < data.len() implies p[i] == data[i] by {
        lemma_in_ring(nic, m, cur + 4 + i);
        assert(data[i] == phys_byte(m, base + cur + 4 + i));
    }
    assert(p =~= data);
}

proof fn lemma_next_place(cur: int, len: int)
    requires
        0 <= cur < 8192,
        cur % 4 == 0,
        0 <= len <= 1540,
    ensures
        ({
            let next = packet_after(cur, len);
            &&& 0 <= next < 8192
            &&& next % 4 == 0
            &&& cur + 4 + len <= next < cur + 4 + len + 4 || cur + 4 + len <= next + 8192 < cur + 4
                + len + 4
        }),
{
    let r = cur + (4 + len + 3) / 4 * 4;
    assert(packet_after(cur, len) == if r < 8192 {
        r
    } else {
        r - 8192
    });
}

proof fn lemma_in_ring(nic: Nic, m: Map<u64, Seq<u64>>, off: int)
    requires
        nic.wf(m),
        0 <= off < 12288,
    ensures
        ring_byte(m, nic.rx_buf_phys, off) == phys_byte(m, nic.rx_buf_phys + off),
{
    let a = nic.rx_buf_phys + off;
    assert(a % 4096 == off % 4096);
    assert(a - a % 4096 == nic.rx_buf_phys + off / 4096 * 4096);
    assert(off / 4096 == 0 || off / 4096 == 1 || off / 4096 == 2);
}

/// Nothing is received where the card says that the ring is empty or the header
/// lacks the good bit, and nothing moves then.
pub proof fn law_bad_frames_are_left(nic: Nic, m: Map<u64, Seq<u64>>, cmd: u8)
    requires
        nic.wf(m),
        cmd % 2 == 1 || phys_byte(m, nic.rx_buf_phys + nic.rx_cur) % 2 == 0,
    ensures
        waiting_packet(nic, m, cmd) is None,
        nic_after_receive(nic, m, cmd) == nic,
{
    let (base, cur) = (nic.rx_buf_phys, nic.rx_cur as int);
    lemma_in_ring(nic, m, cur);
    lemma_good_bit(ring_byte(m, base, cur), ring_byte(m, base, cur + 1), cmd);
}

/// A frame is sent from the start of the next buffer, followed by zeros up to 60
/// bytes; the length of that goes to the status register of the buffer, and no
/// other memory changes.
pub proof fn law_frame_is_sent_whole(nic: Nic, m: Map<u64, Seq<u64>>, data: Seq<u8>, o: int)
    requires
        nic.wf(m),
        data.len() <= 1536,
        0 <= o < 4096,
    ensures
        ({
            let buf = nic.tx_buffers@[nic.tx_next as int];
            let m2 = mem_after_send(m, nic, data);
            &&& o < data.len() ==> mem::page_byte(m2[buf], o) == data[o]
            &&& data.len() <= o < 60 ==> mem::page_byte(m2[buf], o) == 0
            &&& o >= 60 && o >= data.len() ==> mem::page_byte(m2[buf], o) == mem::page_byte(
                m[buf],
                o,
            )
            &&& forall|f: u64| f != buf && m.contains_key(f) ==> #[trigger] m2[f] == m[f]
            &&& transmission_of(nic, data).register == nic.io_base.wrapping_add(
                (0x10 + 4 * nic.tx_next) as u16,
            )
            &&& transmission_of(nic, data).stage == SendStage::Start(
                (if data.len() < 60 {
                    60
                } else {
                    data.len() as int
                }) as u32,
            )
            &&& nic_after_send(nic).tx_next == if nic.tx_next == 3 {
                0
            } else {
                nic.tx_next + 1
            }
        }),
{
    let buf = nic.tx_buffers@[nic.tx_next as int];
    mem::law_written_bytes_are_read(m[buf], 0, padded(data), o);
}

/// A card is woken by a zero in register 0x52 and reset by bit 4 in register
/// 0x37, which is then read until the bit is gone; its address is read from the
/// registers 0 to 5, one byte each in order.
pub proof fn law_startup_uses_its_registers(io_base: u16, n: u32, i: u8, patience: u32, value: u8)
    requires
        io_base < 0xFF00,
        i < 6,
    ensures
        startup_access(io_base, StartupStage::Wake) == Some(
            PortIo::Write8((io_base + 0x52) as u16, 0),
        ),
        startup_access(io_base, StartupStage::Reset) == Some(
            PortIo::Write8((io_base + 0x37) as u16, 0x10),
        ),
        startup_access(io_base, StartupStage::Wait(n)) == Some(
            PortIo::Read8((io_base + 0x37) as u16),
        ),
        startup_access(io_base, StartupStage::Address(i)) == Some(
            PortIo::Read8((io_base + i) as u16),
        ),
        startup_next(StartupStage::Wait(n), patience, value) == StartupStage::Address(0) <==> value
            / 16 % 2 == 0,
        startup_next(StartupStage::Address(i), patience, value) == if i == 5 {
            StartupStage::Ready
        } else {
            StartupStage::Address((i + 1) as u8)
        },
{
    assert((value & 0x10 == 0) == (value / 16 % 2 == 0)) by (bit_vector);
}

/// A card with all of its memory is told where the ring is in register 0x30 and
/// where its four buffers are in the registers 0x20, 0x24, 0x28 and 0x2C; then it
/// is let receive and send.
pub proof fn law_card_is_told_its_memory(
    old_pmm: FrameBitmap,
    old_mem: Map<u64, Seq<u64>>,
    new_pool: Set<u64>,
    new_mem: Map<u64, Seq<u64>>,
    io_base: u16,
    mac: Seq<u8>,
    nic: Nic,
    writes: Seq<PortIo>,
    i: int,
)
    requires
        io_base < 0xFF00,
        buffers_given(old_pmm, old_mem, new_pool, new_mem, io_base, mac, Some(nic), writes),
        0 <= i < 4,
    ensures
        writes.len() == 8,
        writes[0] == PortIo::Write32((io_base + 0x30) as u16, nic.rx_buf_phys as u32),
        writes[1 + i] == PortIo::Write32(
            (io_base + 0x20 + 4 * i) as u16,
            nic.tx_buffers@[i] as u32,
        ),
        writes[5] == PortIo::Write8((io_base + 0x37) as u16, 0x0C),
        writes[6] == PortIo::Write32((io_base + 0x44) as u16, 0x8E),
        writes[7] == PortIo::Write32((io_base + 0x40) as u16, 0x0300_0000),
        nic.io_base == io_base,
        nic.mac@ == mac,
        nic.tx_next == 0,
        nic.rx_cur == 0,
        forall|o: int|
            0 <= o < 12288 ==> #[trigger] new_mem.contains_key((nic.rx_buf_phys + o - o % 4096) as u64),
{
    assert(0x08u8 | 0x04 == 0x0C) by (bit_vector);
    assert forall|o: int| 0 <= o < 12288 implies #[trigger] new_mem.contains_key(
        (nic.rx_buf_phys + o - o % 4096) as u64,
    ) by {
        assert(o - o % 4096 == 0 || o - o % 4096 == 4096 || o - o % 4096 == 8192);
    }
}

/// A frame counts as sent as soon as bit 15 of the status is set; until then the
/// card is asked again, 1,000,000 times at most.
pub proof fn law_sent_is_bit_15(n: u32, status: u32, len: u32)
    requires
        n > 0,
    ensures
        send_next(SendStage::Start(len), status) == SendStage::Wait(1_000_000),
        send_next(SendStage::Wait(n), status) == if status / 0x8000 % 2 == 1 {
            SendStage::Sent
        } else if n == 1 {
            SendStage::TimedOut
        } else {
            SendStage::Wait((n - 1) as u32)
        },
{
    assert((status & 0x8000 != 0) == (status / 0x8000 % 2 == 1)) by (bit_vector);
}

/// The card is the first device of vendor 0x10EC and model 0x8139.
pub proof fn law_card_is_known_by_its_numbers(devs: Seq<PciDevice>, i: int)
    ensures
        0 <= i < devs.len() && devs[i].vendor_id == 0x10EC && devs[i].device_id == 0x8139 && (
        forall|j: int|
            0 <= j < i ==> !((#[trigger] devs[j]).vendor_id == 0x10EC && devs[j].device_id == 0x8139))
            ==> card_among(devs) == Some(devs[i]),
        (forall|j: int|
            0 <= j < devs.len() ==> !((#[trigger] devs[j]).vendor_id == 0x10EC && devs[j].device_id
                == 0x8139)) ==> card_among(devs) is None,
{
    if 0 <= i < devs.len() && devs[i].vendor_id == 0x10EC && devs[i].device_id == 0x8139 && (forall|
        j: int,
    |
        0 <= j < i ==> !((#[trigger] devs[j]).vendor_id == 0x10EC && devs[j].device_id == 0x8139)) {
        assert(pci::is_first_model(devs, RTL8139_VENDOR, RTL8139_DEVICE, i));
        let k = choose|k: int| pci::is_first_model(devs, RTL8139_VENDOR, RTL8139_DEVICE, k);
        assert(pci::is_first_model(devs, RTL8139_VENDOR, RTL8139_DEVICE, k));
        assert(k == i) by {
            if k < i {
                assert(devs[k].vendor_id == 0x10EC);
            } else if i < k {
                assert(devs[i].vendor_id == 0x10EC);
            }
        }
    }
}

} // verus!
