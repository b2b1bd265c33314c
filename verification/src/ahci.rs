//! SATA disks behind an AHCI controller: the search for disks, and the sectors
//! of a disk.
//!
//! The transfer of sectors is up to the caller. A disk is what is known of its
//! sectors so far: where something else is needed, the functions that read it
//! say which sector, and are called again once that is known.
use vstd::prelude::*;
use crate::fmt;
use crate::io::RegWrite;
use crate::pci::{self, PciDevice};

verus! {

pub const AHCI_CLASS: u8 = 0x01;

pub const AHCI_SUBCLASS: u8 = 0x06;

pub const AHCI_PROG_IF: u8 = 0x01;

pub const REG_CAP: u64 = 0x00;

pub const REG_GHC: u64 = 0x04;

pub const REG_PI: u64 = 0x0C;

/// Bit of the control register: AHCI mode instead of IDE.
pub const GHC_AE: u32 = 0x8000_0000;

pub const PORT_BASE: u64 = 0x100;

pub const PORT_SIZE: u64 = 0x80;

pub const PORT_SSTS: u64 = 0x28;

pub const PORT_SIG: u64 = 0x24;

pub const SATA_SIG_ATA: u32 = 0x0000_0101;

pub const SATA_SIG_ATAPI: u32 = 0xEB14_0101;

/// Device detection field: a device is there and communicates.
pub const DET_PRESENT: u32 = 3;

pub const SECTOR_SIZE: usize = 512;

/// The first AHCI controller among the devices.
pub fn find_controller(devs: &Vec<PciDevice>) -> (r: Option<PciDevice>)
    ensures
        match r {
            Some(d) => exists|i: int| #[trigger]
                pci::is_first_of_class(devs@, AHCI_CLASS, AHCI_SUBCLASS, AHCI_PROG_IF, i) && d
                    == devs@[i],
            None => forall|i: int| !#[trigger]
                pci::is_first_of_class(devs@, AHCI_CLASS, AHCI_SUBCLASS, AHCI_PROG_IF, i),
        },
{
    pci::find_class(devs, AHCI_CLASS, AHCI_SUBCLASS, AHCI_PROG_IF)
}

/// Where the registers of a controller are, given its sixth base address.
/// `None` if that is not an address in memory.
pub fn register_base(bar5: u32) -> (r: Option<u64>)
    ensures
        r == if bar5 % 2 == 0 && bar5 != 0 {
            Some((bar5 - bar5 % 16) as u64)
        } else {
            None
        },
{
    if !pci::bar_is_memory(bar5) || bar5 == 0 {
        return None;
    }
    Some(pci::bar_memory_address(bar5))
}

// --- the search for disks -------------------------------------------------------

#[derive(Clone, Copy, PartialEq, Eq, Debug, Structural)]
pub enum DeviceKind {
    Disk,
    Atapi,
    Unknown,
}

/// What the signature of a port says.
pub open spec fn kind_of(sig: u32) -> DeviceKind {
    if sig == SATA_SIG_ATA {
        DeviceKind::Disk
    } else if sig == SATA_SIG_ATAPI {
        DeviceKind::Atapi
    } else {
        DeviceKind::Unknown
    }
}

/// A port with a device.
#[derive(Clone, Copy, PartialEq, Eq, Debug, Structural)]
pub struct PortReport {
    pub port: u32,
    pub kind: DeviceKind,
    pub sig: u32,
}

/// Address of a register of a port.
pub open spec fn port_reg(base: u64, port: u32, reg: u64) -> u64 {
    (base + PORT_BASE + port * PORT_SIZE + reg) as u64
}

/// Whether the bitmap of implemented ports holds a port.
pub open spec fn implements(pi: u32, port: u32) -> bool {
    pi & (1u32 << port) != 0
}

/// Where the search is.
#[derive(Clone, Copy, PartialEq, Eq, Debug, Structural)]
pub enum ProbeStage {
    /// Read the control register.
    Control,
    /// Write it back with AHCI mode on.
    Enable(u32),
    /// Read the capabilities.
    Capabilities,
    /// Read the bitmap of implemented ports.
    Ports,
    /// Read the status of this port.
    Status(u32),
    /// Read the signature of this port.
    Signature(u32),
    Finished,
}

/// What the search asks for.
#[derive(Clone, Copy, PartialEq, Eq, Debug, Structural)]
pub enum ProbeAction {
    Read(u64),
    Write(RegWrite),
    Finished,
}

/// A search for the devices of a controller. The caller performs the accesses
/// that it asks for and hands over what the reads gave.
pub struct Probe {
    pub base: u64,
    pub stage: ProbeStage,
    pub cap: u32,
    pub pi: u32,
    pub found: Vec<PortReport>,
}

/// The first implemented port from `port` on.
pub open spec fn next_port(pi: u32, port: u32) -> ProbeStage
    decreases 32 - port,
{
    if port >= 32 {
        ProbeStage::Finished
    } else if implements(pi, port) {
        ProbeStage::Status(port)
    } else {
        next_port(pi, (port + 1) as u32)
    }
}

impl Probe {
    pub open spec fn wf(&self) -> bool {
        &&& self.base <= 0xFFFF_FFFF
        &&& match self.stage {
            ProbeStage::Status(p) => p < 32,
            ProbeStage::Signature(p) => p < 32,
            _ => true,
        }
    }

    /// A search on the controller with registers at `base`.
    pub fn new(base: u64) -> (r: Self)
        requires
            base <= 0xFFFF_FFFF,
        ensures
            r.wf(),
            r.base == base,
            r.stage == ProbeStage::Control,
            r.cap == 0,
            r.pi == 0,
            r.found@ == Seq::<PortReport>::empty(),
    {
        Probe { base, stage: ProbeStage::Control, cap: 0, pi: 0, found: Vec::new() }
    }

    pub open spec fn wanted(&self) -> ProbeAction {
        match self.stage {
            ProbeStage::Control => ProbeAction::Read((self.base + REG_GHC) as u64),
            ProbeStage::Enable(ghc) => ProbeAction::Write(
                RegWrite { addr: (self.base + REG_GHC) as u64, value: ghc | GHC_AE },
            ),
            ProbeStage::Capabilities => ProbeAction::Read((self.base + REG_CAP) as u64),
            ProbeStage::Ports => ProbeAction::Read((self.base + REG_PI) as u64),
            ProbeStage::Status(p) => ProbeAction::Read(port_reg(self.base, p, PORT_SSTS)),
            ProbeStage::Signature(p) => ProbeAction::Read(port_reg(self.base, p, PORT_SIG)),
            ProbeStage::Finished => ProbeAction::Finished,
        }
    }

    /// The next access.
    pub fn request(&self) -> (r: ProbeAction)
        requires
            self.wf(),
        ensures
            r == self.wanted(),
    {
        match self.stage {
            ProbeStage::Control => ProbeAction::Read(self.base + REG_GHC),
            ProbeStage::Enable(ghc) => ProbeAction::Write(
                RegWrite { addr: self.base + REG_GHC, value: ghc | GHC_AE },
            ),
            ProbeStage::Capabilities => ProbeAction::Read(self.base + REG_CAP),
            ProbeStage::Ports => ProbeAction::Read(self.base + REG_PI),
            ProbeStage::Status(p) => ProbeAction::Read(
                self.base + PORT_BASE + p as u64 * PORT_SIZE + PORT_SSTS,
            ),
            ProbeStage::Signature(p) => ProbeAction::Read(
                self.base + PORT_BASE + p as u64 * PORT_SIZE + PORT_SIG,
            ),
            ProbeStage::Finished => ProbeAction::Finished,
        }
    }

    /// Ports that the controller supports.
    pub fn num_ports(&self) -> (r: u32)
        ensures
            r == self.cap % 32 + 1,
    {
        self.cap % 32 + 1
    }

    fn find_port(pi: u32, from: u32) -> (r: ProbeStage)
        requires
            from <= 32,
        ensures
            r == next_port(pi, from),
            r matches ProbeStage::Status(p) ==> p < 32,
            !(r is Signature),
    {
        let mut port = from;
        while port < 32
            invariant
                port <= 32,
                next_port(pi, port) == next_port(pi, from),
            decreases 32 - port,
        {
            if pi & (1u32 << port) != 0 {
                return ProbeStage::Status(port);
            }
            port += 1;
        }
        ProbeStage::Finished
    }

    /// Takes what the access gave; `value` does not matter after a write.
    pub fn supply(&mut self, value: u32)
        requires
            old(self).wf(),
            old(self).stage != ProbeStage::Finished,
        ensures
            final(self).wf(),
            final(self).base == old(self).base,
            match old(self).stage {
                ProbeStage::Control => {
                    &&& final(self).stage == ProbeStage::Enable(value)
                    &&& final(self).cap == old(self).cap
                    &&& final(self).pi == old(self).pi
                    &&& final(self).found@ == old(self).found@
                },
                ProbeStage::Enable(_) => {
                    &&& final(self).stage == ProbeStage::Capabilities
                    &&& final(self).cap == old(self).cap
                    &&& final(self).pi == old(self).pi
                    &&& final(self).found@ == old(self).found@
                },
                ProbeStage::Capabilities => {
                    &&& final(self).stage == ProbeStage::Ports
                    &&& final(self).cap == value
                    &&& final(self).pi == old(self).pi
                    &&& final(self).found@ == old(self).found@
                },
                ProbeStage::Ports => {
                    &&& final(self).stage == next_port(value, 0)
                    &&& final(self).cap == old(self).cap
                    &&& final(self).pi == value
                    &&& final(self).found@ == old(self).found@
                },
                ProbeStage::Status(p) => {
                    &&& final(self).stage == if value % 16 == DET_PRESENT {
                        ProbeStage::Signature(p)
                    } else {
                        next_port(old(self).pi, (p + 1) as u32)
                    }
                    &&& final(self).cap == old(self).cap
                    &&& final(self).pi == old(self).pi
                    &&& final(self).found@ == old(self).found@
                },
                ProbeStage::Signature(p) => {
                    &&& final(self).stage == next_port(old(self).pi, (p + 1) as u32)
                    &&& final(self).cap == old(self).cap
                    &&& final(self).pi == old(self).pi
                    &&& final(self).found@ == old(self).found@.push(
                        PortReport { port: p, kind: kind_of(value), sig: value },
                    )
                },
                ProbeStage::Finished => true,
            },
    {
        match self.stage {
            ProbeStage::Control => {
                self.stage = ProbeStage::Enable(value);
            },
            ProbeStage::Enable(_) => {
                self.stage = ProbeStage::Capabilities;
            },
            ProbeStage::Capabilities => {
                self.cap = value;
                self.stage = ProbeStage::Ports;
            },
            ProbeStage::Ports => {
                self.pi = value;
                self.stage = Self::find_port(value, 0);
            },
            ProbeStage::Status(p) => {
                self.stage = if value % 16 == DET_PRESENT {
                    ProbeStage::Signature(p)
                } else {
                    Self::find_port(self.pi, p + 1)
                };
            },
            ProbeStage::Signature(p) => {
                let kind = if value == SATA_SIG_ATA {
                    DeviceKind::Disk
                } else if value == SATA_SIG_ATAPI {
                    DeviceKind::Atapi
                } else {
                    DeviceKind::Unknown
                };
                self.found.push(PortReport { port: p, kind, sig: value });
                self.stage = Self::find_port(self.pi, p + 1);
            },
            ProbeStage::Finished => {},
        }
    }
}

/// The ports from `port` on with a device, given the registers of the
/// controller.
pub open spec fn active_ports(regs: spec_fn(u64) -> u32, base: u64, pi: u32, port: u32) -> Seq<
    PortReport,
>
    decreases 32 - port,
{
    if port >= 32 {
        Seq::empty()
    } else {
        let rest = active_ports(regs, base, pi, (port + 1) as u32);
        if implements(pi, port) && regs(port_reg(base, port, PORT_SSTS)) % 16 == DET_PRESENT {
            let sig = regs(port_reg(base, port, PORT_SIG));
            seq![PortReport { port, kind: kind_of(sig), sig }] + rest
        } else {
            rest
        }
    }
}

/// What a search in this stage has still to report.
pub open spec fn still_to_report(
    regs: spec_fn(u64) -> u32,
    base: u64,
    pi: u32,
    stage: ProbeStage,
) -> Seq<PortReport> {
    match stage {
        ProbeStage::Status(p) => active_ports(regs, base, pi, p),
        ProbeStage::Signature(p) => {
            let sig = regs(port_reg(base, p, PORT_SIG));
            seq![PortReport { port: p, kind: kind_of(sig), sig }] + active_ports(
                regs,
                base,
                pi,
                (p + 1) as u32,
            )
        },
        ProbeStage::Finished => Seq::empty(),
        _ => active_ports(regs, base, regs((base + REG_PI) as u64), 0),
    }
}

proof fn lemma_skip_ports(regs: spec_fn(u64) -> u32, base: u64, pi: u32, port: u32)
    requires
        port <= 32,
    ensures
        still_to_report(regs, base, pi, next_port(pi, port)) == active_ports(regs, base, pi, port),
    decreases 32 - port,
{
    if port < 32 && !implements(pi, port) {
        lemma_skip_ports(regs, base, pi, (port + 1) as u32);
    }
}

/// The search reports every implemented port with a device, in order: after
/// each access that was answered from the registers, what was reported and what
/// is still to report are together what they were before.
pub proof fn law_probe_reports_active_ports(
    regs: spec_fn(u64) -> u32,
    base: u64,
    pi: u32,
    stage: ProbeStage,
)
    ensures
        stage == ProbeStage::Ports ==> ({
            let pi2 = regs((base + REG_PI) as u64);
            still_to_report(regs, base, pi2, next_port(pi2, 0)) == still_to_report(
                regs,
                base,
                pi,
                stage,
            )
        }),
        stage matches ProbeStage::Status(p) ==> (p < 32 && implements(pi, p) ==> {
            let value = regs(port_reg(base, p, PORT_SSTS));
            let next = if value % 16 == DET_PRESENT {
                ProbeStage::Signature(p)
            } else {
                next_port(pi, (p + 1) as u32)
            };
            still_to_report(regs, base, pi, next) == still_to_report(regs, base, pi, stage)
        }),
        stage matches ProbeStage::Signature(p) ==> (p < 32 ==> {
            let sig = regs(port_reg(base, p, PORT_SIG));
            seq![PortReport { port: p, kind: kind_of(sig), sig }] + still_to_report(
                regs,
                base,
                pi,
                next_port(pi, (p + 1) as u32),
            ) == still_to_report(regs, base, pi, stage)
        }),
        still_to_report(regs, base, pi, ProbeStage::Finished) == Seq::<PortReport>::empty(),
{
    match stage {
        ProbeStage::Ports => {
            lemma_skip_ports(regs, base, regs((base + REG_PI) as u64), 0);
        },
        ProbeStage::Status(p) => {
            if p < 32 {
                lemma_skip_ports(regs, base, pi, (p + 1) as u32);
            }
        },
        ProbeStage::Signature(p) => {
            if p < 32 {
                lemma_skip_ports(regs, base, pi, (p + 1) as u32);
            }
        },
        _ => {},
    }
}

// --- what is printed of it -----------------------------------------------------------

/// What is printed of a controller before it is asked for its devices.
pub open spec fn controller_text(dev: Option<PciDevice>, bar5: u32) -> Seq<u8> {
    match dev {
        None => fmt::text("[ahci] no se encontró ningún controlador AHCI\n"@),
        Some(d) => fmt::text("[ahci] controlador en "@) + pci::place_text(d) + fmt::text(
            " (vendor=0x"@,
        ) + fmt::hex4(d.vendor_id) + fmt::text(" device=0x"@) + fmt::hex4(d.device_id) + fmt::text(
            ")\n"@,
        ) + if bar5 % 2 == 0 && bar5 != 0 {
            fmt::text("[ahci] ABAR @ 0x"@) + fmt::hex((bar5 - bar5 % 16) as nat) + fmt::text("\n"@)
        } else {
            fmt::text("[ahci] BAR5 (ABAR) inválido o ausente — abortando\n"@)
        },
    }
}

/// What is printed of a controller before it is asked for its devices.
pub fn controller_report(dev: &Option<PciDevice>, bar5: u32) -> (r: Vec<u8>)
    ensures
        r@ == controller_text(*dev, bar5),
{
    let mut out: Vec<u8> = Vec::new();
    match dev {
        None => {
            fmt::push_text(&mut out, "[ahci] no se encontró ningún controlador AHCI\n");
        },
        Some(d) => {
            fmt::push_text(&mut out, "[ahci] controlador en ");
            pci::push_place(&mut out, d);
            fmt::push_text(&mut out, " (vendor=0x");
            fmt::push_hex4(&mut out, d.vendor_id);
            fmt::push_text(&mut out, " device=0x");
            fmt::push_hex4(&mut out, d.device_id);
            fmt::push_text(&mut out, ")\n");
            match register_base(bar5) {
                Some(base) => {
                    fmt::push_text(&mut out, "[ahci] ABAR @ 0x");
                    fmt::push_hex(&mut out, base);
                    fmt::push_text(&mut out, "\n");
                },
                None => {
                    fmt::push_text(&mut out, "[ahci] BAR5 (ABAR) inválido o ausente — abortando\n");
                },
            }
        },
    }
    assert(out@ =~= controller_text(*dev, bar5));
    out
}

/// The name of a kind of device.
pub open spec fn kind_name(kind: DeviceKind) -> &'static str {
    match kind {
        DeviceKind::Disk => "disco SATA (ATA)",
        DeviceKind::Atapi => "unidad ATAPI (CD/DVD)",
        DeviceKind::Unknown => "dispositivo desconocido",
    }
}

/// The line of a port with a device.
pub open spec fn port_text(p: PortReport) -> Seq<u8> {
    fmt::text("[ahci] puerto "@) + fmt::decimal(p.port as nat) + fmt::text(": "@) + fmt::text(
        kind_name(p.kind)@,
    ) + fmt::text(" (sig=0x"@) + fmt::hex(p.sig as nat) + fmt::text(")\n"@)
}

/// The lines of the first `n` ports.
pub open spec fn ports_text(found: Seq<PortReport>, n: nat) -> Seq<u8>
    decreases n,
{
    if n == 0 {
        Seq::empty()
    } else {
        ports_text(found, (n - 1) as nat) + port_text(found[n - 1])
    }
}

/// What is printed of the devices of a controller.
pub open spec fn probe_text(cap: u32, pi: u32, found: Seq<PortReport>) -> Seq<u8> {
    fmt::text("[ahci] CAP=0x"@) + fmt::hex(cap as nat) + fmt::text(" ("@) + fmt::decimal(
        (cap % 32 + 1) as nat,
    ) + fmt::text(" puertos soportados), PI=0x"@) + fmt::hex(pi as nat) + fmt::text("\n"@)
        + ports_text(found, found.len()) + if found.len() == 0 {
        fmt::text("[ahci] ningún puerto con dispositivo activo (¿VM sin disco SATA adjunto?)\n"@)
    } else {
        Seq::empty()
    }
}

fn push_port(out: &mut Vec<u8>, p: PortReport)
    ensures
        final(out)@ == old(out)@ + port_text(p),
{
    fmt::push_text(out, "[ahci] puerto ");
    fmt::push_decimal(out, p.port as u64);
    fmt::push_text(out, ": ");
    match p.kind {
        DeviceKind::Disk => {
            fmt::push_text(out, "disco SATA (ATA)");
        },
        DeviceKind::Atapi => {
            fmt::push_text(out, "unidad ATAPI (CD/DVD)");
        },
        DeviceKind::Unknown => {
            fmt::push_text(out, "dispositivo desconocido");
        },
    }
    fmt::push_text(out, " (sig=0x");
    fmt::push_hex(out, p.sig as u64);
    fmt::push_text(out, ")\n");
    assert(out@ =~= old(out)@ + port_text(p));
}

/// What is printed of the devices of a controller, after a search.
pub fn probe_and_print(probe: &Probe) -> (r: Vec<u8>)
    ensures
        r@ == probe_text(probe.cap, probe.pi, probe.found@),
{
    let mut out: Vec<u8> = Vec::new();
    fmt::push_text(&mut out, "[ahci] CAP=0x");
    fmt::push_hex(&mut out, probe.cap as u64);
    fmt::push_text(&mut out, " (");
    fmt::push_decimal(&mut out, probe.num_ports() as u64);
    fmt::push_text(&mut out, " puertos soportados), PI=0x");
    fmt::push_hex(&mut out, probe.pi as u64);
    fmt::push_text(&mut out, "\n");
    let ghost head = out@;
    let mut i: usize = 0;
    assert(out@ =~= head + ports_text(probe.found@, 0));
    while i < probe.found.len()
        invariant
            i <= probe.found@.len(),
            out@ == head + ports_text(probe.found@, i as nat),
        decreases probe.found@.len() - i,
    {
        push_port(&mut out, probe.found[i]);
        i += 1;
        assert(out@ =~= head + ports_text(probe.found@, i as nat));
    }
    if probe.found.len() == 0 {
        fmt::push_text(
            &mut out,
            "[ahci] ningún puerto con dispositivo activo (¿VM sin disco SATA adjunto?)\n",
        );
    }
    assert(out@ =~= probe_text(probe.cap, probe.pi, probe.found@));
    out
}

/// Whether entry `i` is the first disk among the devices.
pub open spec fn is_first_disk(found: Seq<PortReport>, i: int) -> bool {
    &&& 0 <= i < found.len()
    &&& found[i].kind == DeviceKind::Disk
    &&& forall|j: int| 0 <= j < i ==> (#[trigger] found[j]).kind != DeviceKind::Disk
}

/// The port of the first disk among the devices.
pub fn first_disk(found: &Vec<PortReport>) -> (r: Option<u32>)
    ensures
        match r {
            Some(port) => exists|i: int| #[trigger]
                is_first_disk(found@, i) && port == found@[i].port,
            None => forall|i: int| !#[trigger] is_first_disk(found@, i),
        },
{
    let mut i: usize = 0;
    while i < found.len()
        invariant
            i <= found@.len(),
            forall|j: int| 0 <= j < i ==> (#[trigger] found@[j]).kind != DeviceKind::Disk,
        decreases found@.len() - i,
    {
        if found[i].kind == DeviceKind::Disk {
            assert(is_first_disk(found@, i as int));
            return Some(found[i].port);
        }
        i += 1;
    }
    None
}

// --- sectors -----------------------------------------------------------------------

/// Why something could not be read from a disk.
#[derive(Clone, Copy, PartialEq, Eq, Debug)]
pub enum DiskError {
    /// This sector is not known yet.
    Pending(u64),
    /// The disk could not read this sector.
    Failed(u64),
    /// What was read makes no sense.
    Invalid(&'static str),
}

pub const ERR_RANGE: &'static str = "fuera del rango direccionable del disco";

/// What is known of the sectors of a disk: their contents, or that the disk
/// could not read them.
pub type Sectors = Map<u64, Option<Seq<u8>>>;

struct Known {
    lba: u64,
    data: Option<Vec<u8>>,
}

/// A disk. The view is what is known of its sectors.
pub struct AhciPort {
    known: Vec<Known>,
}

impl View for AhciPort {
    type V = Sectors;

    closed spec fn view(&self) -> Sectors {
        Map::new(
            |lba: u64| exists|i: int| self.is_latest(lba, i),
            |lba: u64| contents(self.known@[choose|i: int| self.is_latest(lba, i)].data),
        )
    }
}

/// The contents of a sector that was read.
pub open spec fn contents(data: Option<Vec<u8>>) -> Option<Seq<u8>> {
    match data {
        Some(v) => Some(v@),
        None => None,
    }
}

impl AhciPort {
    spec fn is_latest(&self, lba: u64, i: int) -> bool {
        &&& 0 <= i < self.known@.len()
        &&& self.known@[i].lba == lba
        &&& forall|j: int| i < j < self.known@.len() ==> (#[trigger] self.known@[j]).lba != lba
    }

    /// Every sector that was read has 512 bytes.
    pub closed spec fn wf(&self) -> bool {
        forall|i: int|
            0 <= i < self.known@.len() ==> ((#[trigger] self.known@[i]).data matches Some(v)
                ==> v@.len() == SECTOR_SIZE)
    }

    pub broadcast proof fn lemma_sector(&self, lba: u64)
        requires
            self.wf(),
            #[trigger] self@.contains_key(lba),
        ensures
            self@[lba] matches Some(s) ==> s.len() == SECTOR_SIZE,
    {
        let i = choose|i: int| self.is_latest(lba, i);
        assert(self.is_latest(lba, i));
    }

    proof fn lemma_latest(&self, lba: u64, i: int)
        requires
            self.is_latest(lba, i),
        ensures
            self@.contains_key(lba),
            self@[lba] == contents(self.known@[i].data),
    {
        let k = choose|k: int| self.is_latest(lba, k);
        assert(self.is_latest(lba, k));
        assert(k == i) by {
            if k < i {
                assert(self.known@[i].lba == lba);
            } else if i < k {
                assert(self.known@[k].lba == lba);
            }
        }
    }

    /// A disk of which nothing is known.
    pub fn new() -> (r: Self)
        ensures
            r.wf(),
            r@ == Map::<u64, Option<Seq<u8>>>::empty(),
    {
        let r = AhciPort { known: Vec::new() };
        assert(r@ =~= Map::<u64, Option<Seq<u8>>>::empty());
        r
    }

    /// Notes what reading a sector gave: its bytes, or `None` for a failure.
    pub fn supply(&mut self, lba: u64, data: Option<Vec<u8>>)
        requires
            old(self).wf(),
            data matches Some(v) ==> v@.len() == SECTOR_SIZE,
        ensures
            final(self).wf(),
            final(self)@ == old(self)@.insert(lba, contents(data)),
    {
        self.known.push(Known { lba, data });
        proof {
            let last = old(self).known@.len() as int;
            assert(self.is_latest(lba, last));
            self.lemma_latest(lba, last);
            assert forall|n: u64| n != lba implies #[trigger] self@.dom().contains(n)
                == old(self)@.dom().contains(n) && (old(self)@.dom().contains(n) ==> self@[n]
                == old(self)@[n]) by {
                if old(self)@.dom().contains(n) {
                    let k = choose|k: int| old(self).is_latest(n, k);
                    assert(self.is_latest(n, k)) by {
                        assert forall|j: int| k < j < self.known@.len() implies (
                        #[trigger] self.known@[j]).lba != n by {
                            if j < last {
                                assert(old(self).known@[j].lba != n);
                            }
                        }
                    }
                    self.lemma_latest(n, k);
                    old(self).lemma_latest(n, k);
                }
                if self@.dom().contains(n) {
                    let k = choose|k: int| self.is_latest(n, k);
                    assert(old(self).is_latest(n, k)) by {
                        assert forall|j: int| k < j < last implies (
                        #[trigger] old(self).known@[j]).lba != n by {
                            assert(self.known@[j].lba != n);
                        }
                    }
                }
            }
            assert(self@ =~= old(self)@.insert(lba, contents(data)));
        }
    }

    fn index_of(&self, lba: u64) -> (r: Option<usize>)
        ensures
            match r {
                Some(i) => self.is_latest(lba, i as int),
                None => !self@.contains_key(lba),
            },
    {
        let mut i: usize = self.known.len();
        while i > 0
            invariant
                i <= self.known@.len(),
                forall|j: int| i <= j < self.known@.len() ==> (#[trigger] self.known@[j]).lba != lba,
            decreases i,
        {
            if self.known[i - 1].lba == lba {
                return Some(i - 1);
            }
            i -= 1;
        }
        None
    }
}

/// The bytes of `count` sectors from `lba` on, or what stands in the way: the
/// first sector that is not known or could not be read.
pub open spec fn sectors(d: Sectors, lba: int, count: nat) -> Result<Seq<u8>, DiskError>
    decreases count,
{
    if count == 0 {
        Ok(Seq::empty())
    } else if lba > u64::MAX {
        Err(DiskError::Invalid(ERR_RANGE))
    } else if !d.contains_key(lba as u64) {
        Err(DiskError::Pending(lba as u64))
    } else {
        match d[lba as u64] {
            None => Err(DiskError::Failed(lba as u64)),
            Some(s) => match sectors(d, lba + 1, (count - 1) as nat) {
                Ok(rest) => Ok(s + rest),
                Err(e) => Err(e),
            },
        }
    }
}

/// Reads `count` sectors from `lba` on.
pub fn read_sectors(port: &AhciPort, lba: u64, count: u64) -> (r: Result<Vec<u8>, DiskError>)
    requires
        port.wf(),
    ensures
        match sectors(port@, lba as int, count as nat) {
            Ok(s) => r matches Ok(v) && v@ == s,
            Err(e) => r matches Err(e2) && e2 == e,
        },
        r matches Ok(v) ==> v@.len() == 512 * count,
{
    broadcast use AhciPort::lemma_sector;

    let mut out: Vec<u8> = Vec::new();
    let mut done: u64 = 0;
    while done < count
        invariant
            done <= count,
            port.wf(),
            out@.len() == 512 * done,
            sectors(port@, lba as int, count as nat) == (match sectors(
                port@,
                lba + done,
                (count - done) as nat,
            ) {
                Ok(rest) => Ok::<Seq<u8>, DiskError>(out@ + rest),
                Err(e) => Err(e),
            }),
        decreases count - done,
    {
        if lba > u64::MAX - done {
            return Err(DiskError::Invalid(ERR_RANGE));
        }
        let at = lba + done;
        let i = match port.index_of(at) {
            Some(i) => i,
            None => {
                return Err(DiskError::Pending(at));
            },
        };
        proof {
            port.lemma_latest(at, i as int);
        }
        match &port.known[i].data {
            None => {
                return Err(DiskError::Failed(at));
            },
            Some(data) => {
                let ghost before = out@;
                out.extend_from_slice(data.as_slice());
                proof {
                    assert(out@ =~= before + data@);
                    let rest = sectors(port@, at + 1, (count - done - 1) as nat);
                    if rest is Ok {
                        assert(before + (data@ + rest->Ok_0) =~= out@ + rest->Ok_0);
                    }
                }
            },
        }
        done += 1;
    }
    assert(out@ + Seq::<u8>::empty() =~= out@);
    Ok(out)
}

/// The bytes of a disk from `off` to `off + len`.
pub open spec fn disk_bytes(d: Sectors, off: int, len: int) -> Result<Seq<u8>, DiskError> {
    if len == 0 {
        Ok(Seq::empty())
    } else if off + len > u64::MAX {
        Err(DiskError::Invalid(ERR_RANGE))
    } else {
        match sectors(d, off / 512, ((off % 512 + len + 511) / 512) as nat) {
            Ok(s) => Ok(s.subrange(off % 512, off % 512 + len)),
            Err(e) => Err(e),
        }
    }
}

/// Reads `len` bytes from byte `off` of the disk on.
pub fn read_bytes(port: &AhciPort, off: u64, len: u64) -> (r: Result<Vec<u8>, DiskError>)
    requires
        port.wf(),
    ensures
        match disk_bytes(port@, off as int, len as int) {
            Ok(s) => r matches Ok(v) && v@ == s,
            Err(e) => r matches Err(e2) && e2 == e,
        },
        r matches Ok(v) ==> v@.len() == len,
{
    if len == 0 {
        let none: Vec<u8> = Vec::new();
        assert(none@ =~= Seq::<u8>::empty());
        return Ok(none);
    }
    if off > u64::MAX - len {
        return Err(DiskError::Invalid(ERR_RANGE));
    }
    // At least one whole sector before the end of the address range.
    let skip = off % 512;
    let count = if len > u64::MAX - 511 - skip {
        0x80_0000_0000_0000
    } else {
        (skip + len + 511) / 512
    };
    proof {
        if len > u64::MAX - 511 - skip {
            assert((skip + len + 511) / 512 == 0x80_0000_0000_0000);
        }
    }
    match read_sectors(port, off / 512, count) {
        Err(e) => Err(e),
        Ok(all) => {
            let total = all.len();
            assert(skip + len <= total);
            let from = skip as usize;
            let mut out: Vec<u8> = Vec::new();
            out.extend_from_slice(
                vstd::slice::slice_subrange(all.as_slice(), from, from + len as usize),
            );
            assert(out@ =~= all@.subrange(skip as int, skip + len));
            Ok(out)
        },
    }
}

/// Whether `b` knows all that `a` knows, and the same.
pub open spec fn knows_more(a: Sectors, b: Sectors) -> bool {
    forall|lba: u64| #[trigger] a.contains_key(lba) ==> b.contains_key(lba) && b[lba] == a[lba]
}

/// Whether an answer still hangs on a sector that is not known.
pub open spec fn unsettled<T>(r: Result<T, DiskError>) -> bool {
    r matches Err(e) && e is Pending
}

/// What was read stays read: once the answer did not depend on a sector that
/// was not known, knowing more sectors does not change it.
pub proof fn law_answers_are_stable(a: Sectors, b: Sectors, lba: int, count: nat)
    requires
        knows_more(a, b),
        !unsettled(sectors(a, lba, count)),
    ensures
        sectors(b, lba, count) == sectors(a, lba, count),
    decreases count,
{
    if count > 0 && lba <= u64::MAX && a.contains_key(lba as u64) && a[lba as u64] is Some {
        law_answers_are_stable(a, b, lba + 1, (count - 1) as nat);
    }
}

/// Whether what is known of a disk is what its bytes are: byte `x` of the disk is
/// `img(x)`.
pub open spec fn shows(d: Sectors, img: spec_fn(int) -> u8) -> bool {
    forall|lba: u64| #[trigger]
        d.contains_key(lba) ==> (d[lba] matches Some(s) ==> s.len() == 512 && forall|i: int|
            0 <= i < 512 ==> #[trigger] s[i] == img(512 * lba + i))
}

/// Whether all sectors that hold the bytes from `off` to `end` were read.
pub open spec fn readable(d: Sectors, off: int, end: int) -> bool {
    forall|lba: u64|
        off < 512 * lba + 512 && 512 * lba < end ==> #[trigger] d.contains_key(lba) && d[lba] is Some
}

/// Sectors that are read are those of the disk: byte `k` of what comes out is byte
/// `512 * lba + k` of the disk, and there are 512 for each sector.
pub proof fn law_sectors_are_of_the_disk(
    d: Sectors,
    img: spec_fn(int) -> u8,
    lba: int,
    count: nat,
)
    requires
        shows(d, img),
        0 <= lba,
    ensures
        sectors(d, lba, count) matches Ok(s) ==> s.len() == 512 * count && forall|k: int|
            0 <= k < s.len() ==> #[trigger] s[k] == img(512 * lba + k),
    decreases count,
{
    if count > 0 && lba <= u64::MAX && d.contains_key(lba as u64) && d[lba as u64] is Some {
        law_sectors_are_of_the_disk(d, img, lba + 1, (count - 1) as nat);
        let first = d[lba as u64]->0;
        if let Ok(rest) = sectors(d, lba + 1, (count - 1) as nat) {
            let s = first + rest;
            assert(sectors(d, lba, count) == Ok::<Seq<u8>, DiskError>(s));
            assert forall|k: int| 0 <= k < s.len() implies #[trigger] s[k] == img(512 * lba + k) by {
                if k >= 512 {
                    assert(s[k] == rest[k - 512]);
                    assert(512 * (lba + 1) + (k - 512) == 512 * lba + k);
                } else {
                    assert(s[k] == first[k]);
                }
            }
        }
    }
}

/// Sectors that were all read can be read together; one that is missing is named.
pub proof fn law_known_sectors_can_be_read(d: Sectors, lba: int, count: nat)
    requires
        0 <= lba,
        lba + count <= u64::MAX,
    ensures
        readable(d, 512 * lba, 512 * (lba + count)) ==> sectors(d, lba, count) is Ok,
        sectors(d, lba, count) matches Err(e) ==> {
            ||| e matches DiskError::Pending(n) && lba <= n < lba + count && !d.contains_key(n)
            ||| e matches DiskError::Failed(n) && lba <= n < lba + count && d.contains_key(n)
                && d[n] is None
        },
    decreases count,
{
    if count > 0 {
        law_known_sectors_can_be_read(d, lba + 1, (count - 1) as nat);
        if readable(d, 512 * lba, 512 * (lba + count)) {
            assert(d.contains_key(lba as u64) && d[lba as u64] is Some);
            assert(readable(d, 512 * (lba + 1), 512 * (lba + count)));
        }
    }
}

/// Bytes that are read are those of the disk, from the very byte that was asked
/// for on.
pub proof fn law_bytes_are_of_the_disk(d: Sectors, img: spec_fn(int) -> u8, off: int, len: int)
    requires
        shows(d, img),
        0 <= off,
        0 <= len,
    ensures
        disk_bytes(d, off, len) matches Ok(s) ==> s.len() == len && forall|k: int|
            0 <= k < len ==> #[trigger] s[k] == img(off + k),
        off + len <= u64::MAX && readable(d, off, off + len) ==> disk_bytes(d, off, len) is Ok,
{
    if len > 0 && off + len <= u64::MAX {
        let (lba, count) = (off / 512, ((off % 512 + len + 511) / 512) as nat);
        law_sectors_are_of_the_disk(d, img, lba, count);
        law_known_sectors_can_be_read(d, lba, count);
        if readable(d, off, off + len) {
            assert forall|n: u64|
                512 * lba < 512 * n + 512 && 512 * n < 512 * (lba + count) implies #[trigger] d.contains_key(
            n) && d[n] is Some by {
                assert(off < 512 * n + 512 && 512 * n < off + len);
            }
        }
        if let Ok(s) = sectors(d, lba, count) {
            let t = s.subrange(off % 512, off % 512 + len);
            assert forall|k: int| 0 <= k < len implies #[trigger] t[k] == img(off + k) by {
                assert(t[k] == s[off % 512 + k]);
                assert(512 * lba + (off % 512 + k) == off + k);
            }
        }
    }
}

/// The 16-bit number at byte `x` of a disk, least significant byte first.
pub open spec fn u16_on(img: spec_fn(int) -> u8, x: int) -> int {
    img(x) + 0x100 * img(x + 1)
}

/// The 32-bit number at byte `x` of a disk.
pub open spec fn u32_on(img: spec_fn(int) -> u8, x: int) -> int {
    img(x) + 0x100 * img(x + 1) + 0x1_0000 * img(x + 2) + 0x100_0000 * img(x + 3)
}

/// The 64-bit number at byte `x` of a disk.
pub open spec fn u64_on(img: spec_fn(int) -> u8, x: int) -> int {
    u32_on(img, x) + 0x1_0000_0000 * u32_on(img, x + 4)
}

/// Whether `r` is what the registers say of a port that is implemented and has a
/// device: its bit is set at offset 0x0C, the low four bits of its register 0x28
/// are 3 and its register 0x24 is the signature, where port `p` has its registers
/// from 0x100 + 0x80 * p on.
pub open spec fn has_device(regs: spec_fn(u64) -> u32, base: u64, pi: u32, r: PortReport) -> bool {
    &&& r.port < 32
    &&& (pi >> r.port) % 2 == 1
    &&& regs((base + 0x128 + 0x80 * r.port) as u64) % 16 == 3
    &&& r.sig == regs((base + 0x124 + 0x80 * r.port) as u64)
    &&& r.kind is Disk <==> r.sig == 0x101
    &&& r.kind is Atapi <==> r.sig == 0xEB14_0101
}

/// Every port with a device is reported, and no other, in the order of their
/// numbers.
pub proof fn law_every_device_is_reported(regs: spec_fn(u64) -> u32, base: u64, pi: u32)
    ensures
        forall|i: int|
            0 <= i < active_ports(regs, base, pi, 0).len() ==> has_device(
                regs,
                base,
                pi,
                #[trigger] active_ports(regs, base, pi, 0)[i],
            ),
        forall|i: int, j: int|
            0 <= i < j < active_ports(regs, base, pi, 0).len() ==> (#[trigger] active_ports(
                regs,
                base,
                pi,
                0,
            )[i]).port < (#[trigger] active_ports(regs, base, pi, 0)[j]).port,
        forall|r: PortReport| #[trigger]
            has_device(regs, base, pi, r) ==> active_ports(regs, base, pi, 0).contains(r),
{
    lemma_reported_from(regs, base, pi, 0);
}

proof fn lemma_reported_from(regs: spec_fn(u64) -> u32, base: u64, pi: u32, port: u32)
    requires
        port <= 32,
    ensures
        ({
            let s = active_ports(regs, base, pi, port);
            &&& forall|i: int|
                0 <= i < s.len() ==> has_device(regs, base, pi, #[trigger] s[i]) && s[i].port >= port
            &&& forall|i: int, j: int|
                0 <= i < j < s.len() ==> (#[trigger] s[i]).port < (#[trigger] s[j]).port
            &&& forall|r: PortReport| #[trigger]
                has_device(regs, base, pi, r) && r.port >= port ==> s.contains(r)
        }),
    decreases 32 - port,
{
    if port < 32 {
        let s = active_ports(regs, base, pi, port);
        let rest = active_ports(regs, base, pi, (port + 1) as u32);
        lemma_reported_from(regs, base, pi, (port + 1) as u32);
        assert((pi & (1u32 << port) != 0) == ((pi >> port) % 2 == 1)) by (bit_vector)
            requires
                port < 32,
        ;
        let sig = regs(port_reg(base, port, PORT_SIG));
        let first = PortReport { port, kind: kind_of(sig), sig };
        if s.len() > rest.len() {
            assert(s == seq![first] + rest);
            assert(has_device(regs, base, pi, first));
            assert forall|i: int| 0 <= i < s.len() implies has_device(regs, base, pi, #[trigger] s[i])
                && s[i].port >= port by {
                if i > 0 {
                    assert(s[i] == rest[i - 1]);
                }
            }
            assert forall|i: int, j: int| 0 <= i < j < s.len() implies (#[trigger] s[i]).port < (
            #[trigger] s[j]).port by {
                assert(s[j] == rest[j - 1]);
                if i > 0 {
                    assert(s[i] == rest[i - 1]);
                }
            }
        }
        assert forall|r: PortReport| #[trigger]
            has_device(regs, base, pi, r) && r.port >= port implies s.contains(r) by {
            if r.port == port {
                assert(r == first);
                assert(s[0] == r);
            } else {
                assert(rest.contains(r));
                let i = choose|i: int| 0 <= i < rest.len() && rest[i] == r;
                if s.len() > rest.len() {
                    assert(s[i + 1] == r);
                } else {
                    assert(s[i] == r);
                }
            }
        }
    }
}

} // verus!
