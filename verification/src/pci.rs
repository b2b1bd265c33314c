//! PCI configuration space and the search for devices.
//!
//! A device is named by bus, device and function. Its configuration space is
//! read and written in units of 32 bits through two ports: the first takes the
//! address, the second holds the data.
use vstd::prelude::*;
use crate::fmt;

verus! {

pub const CONFIG_ADDRESS: u16 = 0xCF8;

pub const CONFIG_DATA: u16 = 0xCFC;

/// Offset of the command register.
pub const REG_COMMAND: u8 = 0x04;

/// The first base address register.
pub const REG_BAR0: u8 = 0x10;

/// Bit of the command register: the device may access memory by itself.
pub const BUS_MASTER_ENABLE: u16 = 0x0004;

/// The value for the address port.
pub open spec fn address_of(bus: u8, device: u8, function: u8, offset: u8) -> u32 {
    0x8000_0000u32 | ((bus as u32) << 16) | ((device as u32) << 11) | ((function as u32) << 8) | ((
    offset as u32) & 0xFC)
}

/// The value for the address port that selects a word of the configuration
/// space. The low two bits of the offset are ignored.
pub fn config_address(bus: u8, device: u8, function: u8, offset: u8) -> (r: u32)
    ensures
        r == address_of(bus, device, function, offset),
{
    0x8000_0000u32 | ((bus as u32) << 16) | ((device as u32) << 11) | ((function as u32) << 8) | ((
    offset as u32) & 0xFC)
}

/// The address holds each of its parts, and the bit that enables it.
pub proof fn law_address_holds_parts(bus: u8, device: u8, function: u8, offset: u8)
    by (bit_vector)
    requires
        device < 32,
        function < 8,
    ensures
        address_of(bus, device, function, offset) >> 31 == 1,
        (address_of(bus, device, function, offset) >> 16) & 0xFF == bus,
        (address_of(bus, device, function, offset) >> 11) & 0x1F == device,
        (address_of(bus, device, function, offset) >> 8) & 0x7 == function,
        address_of(bus, device, function, offset) & 0xFF == offset - offset % 4,
{
}

/// A read of the configuration space.
#[derive(Clone, Copy, PartialEq, Eq, Debug, Structural)]
pub struct ConfigRead {
    pub bus: u8,
    pub device: u8,
    pub function: u8,
    pub offset: u8,
}

/// A write of 32 bits to the configuration space.
#[derive(Clone, Copy, PartialEq, Eq, Debug, Structural)]
pub struct ConfigWrite {
    pub bus: u8,
    pub device: u8,
    pub function: u8,
    pub offset: u8,
    pub value: u32,
}

/// The word `dword` with one half replaced: the high half if bit 1 of `offset`
/// is set.
pub open spec fn with_half(dword: u32, offset: u8, value: u16) -> int {
    if (offset / 2) % 2 == 0 {
        dword - dword % 0x1_0000 + value
    } else {
        dword % 0x1_0000 + 0x1_0000 * value
    }
}

/// The write that changes 16 bits at `offset`, given the word that holds them
/// now. Only whole words can be written.
pub fn write_config_u16(
    bus: u8,
    device: u8,
    function: u8,
    offset: u8,
    dword: u32,
    value: u16,
) -> (r: ConfigWrite)
    ensures
        r.bus == bus,
        r.device == device,
        r.function == function,
        r.offset == offset - offset % 4,
        r.value == with_half(dword, offset, value),
{
    let new_dword = if (offset / 2) % 2 == 0 {
        dword - dword % 0x1_0000 + value as u32
    } else {
        dword % 0x1_0000 + 0x1_0000 * (value as u32)
    };
    ConfigWrite { bus, device, function, offset: offset - offset % 4, value: new_dword }
}

/// The write that lets a device access memory by itself, given the word at
/// [`REG_COMMAND`]. All other bits of the command register are kept, and so is
/// the other half of the word.
pub fn enable_bus_master(dev: &PciDevice, dword: u32) -> (r: ConfigWrite)
    ensures
        r.bus == dev.bus,
        r.device == dev.device,
        r.function == dev.function,
        r.offset == REG_COMMAND,
        r.value == with_half(
            dword,
            REG_COMMAND,
            ((dword % 0x1_0000) as u16) | BUS_MASTER_ENABLE,
        ),
{
    let command = (dword % 0x1_0000) as u16;
    write_config_u16(
        dev.bus,
        dev.device,
        dev.function,
        REG_COMMAND,
        dword,
        command | BUS_MASTER_ENABLE,
    )
}

#[derive(Clone, Copy, PartialEq, Eq, Debug, Structural)]
pub struct PciDevice {
    pub bus: u8,
    pub device: u8,
    pub function: u8,
    pub vendor_id: u16,
    pub device_id: u16,
    pub class: u8,
    pub subclass: u8,
    pub prog_if: u8,
}

/// The device that the words at 0x00 and 0x08 describe.
pub open spec fn device_of(bus: u8, device: u8, function: u8, word0: u32, word2: u32) -> PciDevice {
    PciDevice {
        bus,
        device,
        function,
        vendor_id: (word0 % 0x1_0000) as u16,
        device_id: (word0 / 0x1_0000) as u16,
        class: (word2 / 0x100_0000) as u8,
        subclass: ((word2 / 0x1_0000) % 0x100) as u8,
        prog_if: ((word2 / 0x100) % 0x100) as u8,
    }
}

/// Whether the word at 0x00 says that there is a device.
pub open spec fn is_there(word0: u32) -> bool {
    word0 % 0x1_0000 != 0xFFFF
}

fn probe_function(bus: u8, device: u8, function: u8, word0: u32, word2: u32) -> (r: PciDevice)
    ensures
        r == device_of(bus, device, function, word0, word2),
{
    PciDevice {
        bus,
        device,
        function,
        vendor_id: (word0 % 0x1_0000) as u16,
        device_id: (word0 / 0x1_0000) as u16,
        class: (word2 / 0x100_0000) as u8,
        subclass: ((word2 / 0x1_0000) % 0x100) as u8,
        prog_if: ((word2 / 0x100) % 0x100) as u8,
    }
}

/// Whether the word at 0x0C says that there are more functions than one.
pub open spec fn multi_function(word3: u32) -> bool {
    (word3 / 0x1_0000) % 0x100 >= 0x80
}

fn header_type(word3: u32) -> (r: u8)
    ensures
        r == (word3 / 0x1_0000) % 0x100,
{
    ((word3 / 0x1_0000) % 0x100) as u8
}

// --- base addresses ----------------------------------------------------------

/// The reads of the six base address registers of a function.
pub fn read_bars(bus: u8, device: u8, function: u8) -> (r: Vec<ConfigRead>)
    ensures
        r@.len() == 6,
        forall|i: int|
            0 <= i < 6 ==> #[trigger] r@[i] == (ConfigRead {
                bus,
                device,
                function,
                offset: (0x10 + 4 * i) as u8,
            }),
{
    let mut out: Vec<ConfigRead> = Vec::new();
    let mut i: u8 = 0;
    while i < 6
        invariant
            i <= 6,
            out@.len() == i,
            forall|j: int|
                0 <= j < i ==> #[trigger] out@[j] == (ConfigRead {
                    bus,
                    device,
                    function,
                    offset: (0x10 + 4 * j) as u8,
                }),
        decreases 6 - i,
    {
        out.push(ConfigRead { bus, device, function, offset: 0x10 + 4 * i });
        i += 1;
    }
    out
}

/// Whether a base address is in memory. Otherwise it is an I/O port.
pub fn bar_is_memory(bar: u32) -> (r: bool)
    ensures
        r == (bar % 2 == 0),
{
    bar % 2 == 0
}

/// The physical address in a memory base address: without its four flag bits.
pub fn bar_memory_address(bar: u32) -> (r: u64)
    ensures
        r == bar - bar % 16,
{
    (bar - bar % 16) as u64
}

/// The port in an I/O base address: without its two flag bits.
pub fn bar_io_port(bar: u32) -> (r: u16)
    ensures
        r == (bar - bar % 4) % 0x1_0000,
{
    ((bar - bar % 4) % 0x1_0000) as u16
}

/// What a base address register says.
#[derive(Clone, Copy, PartialEq, Eq, Debug, Structural)]
pub enum Bar {
    Unused,
    Memory(u64),
    Io(u16),
}

pub fn describe_bar(bar: u32) -> (r: Bar)
    ensures
        r == if bar == 0 {
            Bar::Unused
        } else if bar % 2 == 0 {
            Bar::Memory((bar - bar % 16) as u64)
        } else {
            Bar::Io(((bar - bar % 4) % 0x1_0000) as u16)
        },
{
    if bar == 0 {
        Bar::Unused
    } else if bar_is_memory(bar) {
        Bar::Memory(bar_memory_address(bar))
    } else {
        Bar::Io(bar_io_port(bar))
    }
}

// --- the search for devices ------------------------------------------------------

/// Slots on all buses: 256 buses of 32 devices.
pub const SLOTS: u16 = 8192;

/// Which word of a function is looked at.
#[derive(Clone, Copy, PartialEq, Eq, Debug, Structural)]
pub enum Stage {
    /// Vendor and device, at 0x00.
    Vendor,
    /// Class, at 0x08.
    Class,
    /// Header type, at 0x0C.
    Header,
}

/// How far the search is.
#[derive(Clone, Copy, PartialEq, Eq, Debug, Structural)]
pub struct Position {
    /// Bus and device: 32 devices per bus.
    pub slot: u16,
    pub function: u8,
    pub stage: Stage,
    /// The word at 0x00, while the class is looked at.
    pub word0: u32,
}

/// Where the search goes on after it is through with a function. Functions
/// after the first are looked at only if the header said so.
pub open spec fn after_function(p: Position) -> Position {
    if p.function == 0 || p.function >= 7 {
        Position { slot: (p.slot + 1) as u16, function: 0, stage: Stage::Vendor, word0: 0 }
    } else {
        Position { function: (p.function + 1) as u8, stage: Stage::Vendor, word0: 0, ..p }
    }
}

/// Where the search goes on after it read `value`.
pub open spec fn advance(p: Position, value: u32) -> Position {
    match p.stage {
        Stage::Vendor => if is_there(value) {
            Position { stage: Stage::Class, word0: value, ..p }
        } else {
            after_function(p)
        },
        Stage::Class => if p.function == 0 {
            Position { stage: Stage::Header, word0: 0, ..p }
        } else {
            after_function(p)
        },
        Stage::Header => if multi_function(value) {
            Position { function: 1, stage: Stage::Vendor, word0: 0, ..p }
        } else {
            after_function(p)
        },
    }
}

/// What the search looks at.
pub open spec fn wanted(p: Position) -> ConfigRead {
    ConfigRead {
        bus: (p.slot / 32) as u8,
        device: (p.slot % 32) as u8,
        function: p.function,
        offset: match p.stage {
            Stage::Vendor => 0x00,
            Stage::Class => 0x08,
            Stage::Header => 0x0C,
        },
    }
}

/// The device that reading `value` completes, if any.
pub open spec fn completed(p: Position, value: u32) -> Seq<PciDevice> {
    if p.stage == Stage::Class {
        seq![
            device_of((p.slot / 32) as u8, (p.slot % 32) as u8, p.function, p.word0, value),
        ]
    } else {
        Seq::empty()
    }
}

pub open spec fn position_ok(p: Position) -> bool {
    &&& p.slot <= SLOTS
    &&& p.function < 8
    &&& p.stage == Stage::Header ==> p.function == 0
}

/// A search in progress. The caller performs the reads that it asks for and
/// hands over what came back, until it asks for nothing more.
pub struct Scan {
    pub position: Position,
    pub found: Vec<PciDevice>,
}

impl Scan {
    pub open spec fn wf(&self) -> bool {
        position_ok(self.position)
    }

    pub fn new() -> (r: Self)
        ensures
            r.wf(),
            r.position == start(),
            r.found@ == Seq::<PciDevice>::empty(),
    {
        Scan {
            position: Position { slot: 0, function: 0, stage: Stage::Vendor, word0: 0 },
            found: Vec::new(),
        }
    }

    /// The next read. `None` if the search is over.
    pub fn request(&self) -> (r: Option<ConfigRead>)
        requires
            self.wf(),
        ensures
            r == if self.position.slot < SLOTS {
                Some(wanted(self.position))
            } else {
                None
            },
    {
        let p = self.position;
        if p.slot >= SLOTS {
            return None;
        }
        Some(
            ConfigRead {
                bus: (p.slot / 32) as u8,
                device: (p.slot % 32) as u8,
                function: p.function,
                offset: match p.stage {
                    Stage::Vendor => 0x00,
                    Stage::Class => 0x08,
                    Stage::Header => 0x0C,
                },
            },
        )
    }

    fn next_function(&mut self)
        requires
            old(self).wf(),
            old(self).position.slot < SLOTS,
        ensures
            final(self).wf(),
            final(self).position == after_function(old(self).position),
            final(self).found@ == old(self).found@,
    {
        let p = self.position;
        self.position = if p.function == 0 || p.function >= 7 {
            Position { slot: p.slot + 1, function: 0, stage: Stage::Vendor, word0: 0 }
        } else {
            Position { function: p.function + 1, stage: Stage::Vendor, word0: 0, ..p }
        };
    }

    /// Takes what the read gave.
    pub fn supply(&mut self, value: u32)
        requires
            old(self).wf(),
            old(self).position.slot < SLOTS,
        ensures
            final(self).wf(),
            final(self).position == advance(old(self).position, value),
            final(self).found@ == old(self).found@ + completed(old(self).position, value),
    {
        let p = self.position;
        assert(self.found@ + Seq::<PciDevice>::empty() =~= self.found@);
        match p.stage {
            Stage::Vendor => {
                if value % 0x1_0000 != 0xFFFF {
                    self.position = Position { stage: Stage::Class, word0: value, ..p };
                } else {
                    self.next_function();
                }
            },
            Stage::Class => {
                let dev = probe_function(
                    (p.slot / 32) as u8,
                    (p.slot % 32) as u8,
                    p.function,
                    p.word0,
                    value,
                );
                self.found.push(dev);
                assert(self.found@ =~= old(self).found@ + completed(p, value));
                if p.function == 0 {
                    self.position = Position { stage: Stage::Header, word0: 0, ..p };
                } else {
                    self.next_function();
                }
            },
            Stage::Header => {
                if header_type(value) >= 0x80 {
                    self.position = Position {
                        function: 1,
                        stage: Stage::Vendor,
                        word0: 0,
                        ..p
                    };
                } else {
                    self.next_function();
                }
            },
        }
    }
}

pub open spec fn start() -> Position {
    Position { slot: 0, function: 0, stage: Stage::Vendor, word0: 0 }
}

/// Where the search starts on a slot.
pub open spec fn slot_start(slot: int) -> Position {
    Position { slot: slot as u16, function: 0, stage: Stage::Vendor, word0: 0 }
}

/// A configuration space: the word at each place.
pub type ConfigSpace = spec_fn(ConfigRead) -> u32;

pub open spec fn word_at(cfg: ConfigSpace, slot: int, function: int, offset: u8) -> u32 {
    cfg(
        ConfigRead {
            bus: (slot / 32) as u8,
            device: (slot % 32) as u8,
            function: function as u8,
            offset,
        },
    )
}

/// The device at a function, if there is one.
pub open spec fn function_devices(cfg: ConfigSpace, slot: int, function: int) -> Seq<PciDevice> {
    let word0 = word_at(cfg, slot, function, 0x00);
    if is_there(word0) {
        seq![
            device_of(
                (slot / 32) as u8,
                (slot % 32) as u8,
                function as u8,
                word0,
                word_at(cfg, slot, function, 0x08),
            ),
        ]
    } else {
        Seq::empty()
    }
}

/// The devices at the functions from `function` to 7.
pub open spec fn later_functions(cfg: ConfigSpace, slot: int, function: int) -> Seq<PciDevice>
    decreases 8 - function,
{
    if function >= 8 {
        Seq::empty()
    } else {
        function_devices(cfg, slot, function) + later_functions(cfg, slot, function + 1)
    }
}

/// The devices in a slot: the first function, and the others if the first is
/// there and its header says that there are others.
pub open spec fn slot_devices(cfg: ConfigSpace, slot: int) -> Seq<PciDevice> {
    if is_there(word_at(cfg, slot, 0, 0x00)) && multi_function(word_at(cfg, slot, 0, 0x0C)) {
        function_devices(cfg, slot, 0) + later_functions(cfg, slot, 1)
    } else {
        function_devices(cfg, slot, 0)
    }
}

/// All devices from a slot on, in order.
pub open spec fn devices_from(cfg: ConfigSpace, slot: int) -> Seq<PciDevice>
    decreases SLOTS - slot,
{
    if slot >= SLOTS {
        Seq::empty()
    } else {
        slot_devices(cfg, slot) + devices_from(cfg, slot + 1)
    }
}

/// All devices.
pub open spec fn enumerate(cfg: ConfigSpace) -> Seq<PciDevice> {
    devices_from(cfg, 0)
}

/// What a search at this position has still to find.
pub open spec fn still_to_find(cfg: ConfigSpace, p: Position) -> Seq<PciDevice> {
    let slot = p.slot as int;
    let f = p.function as int;
    if slot >= SLOTS {
        Seq::empty()
    } else {
        let in_slot = match p.stage {
            Stage::Vendor => if f == 0 {
                slot_devices(cfg, slot)
            } else {
                later_functions(cfg, slot, f)
            },
            Stage::Class => {
                let here = seq![
                    device_of(
                        (slot / 32) as u8,
                        (slot % 32) as u8,
                        p.function,
                        p.word0,
                        word_at(cfg, slot, f, 0x08),
                    ),
                ];
                if f > 0 {
                    here + later_functions(cfg, slot, f + 1)
                } else if multi_function(word_at(cfg, slot, 0, 0x0C)) {
                    here + later_functions(cfg, slot, 1)
                } else {
                    here
                }
            },
            Stage::Header => if multi_function(word_at(cfg, slot, 0, 0x0C)) {
                later_functions(cfg, slot, 1)
            } else {
                Seq::empty()
            },
        };
        in_slot + devices_from(cfg, slot + 1)
    }
}

/// How many reads a search can still ask for, at most.
pub open spec fn reads_left(p: Position) -> int {
    24 * (SLOTS - p.slot) - 3 * p.function - match p.stage {
        Stage::Vendor => 0int,
        Stage::Class => 1,
        Stage::Header => 2,
    }
}

/// The search finds every device, each once and in order: what was found and
/// what is still to find make up all devices after every read that was answered
/// from the configuration space, and the search ends.
pub proof fn law_scan_finds_all(cfg: ConfigSpace, p: Position, found: Seq<PciDevice>)
    requires
        position_ok(p),
    ensures
        still_to_find(cfg, start()) == enumerate(cfg),
        p.slot >= SLOTS ==> still_to_find(cfg, p) == Seq::<PciDevice>::empty(),
        p.slot < SLOTS ==> {
            let value = cfg(wanted(p));
            let p2 = advance(p, value);
            &&& position_ok(p2)
            &&& reads_left(p2) < reads_left(p)
            &&& 0 <= reads_left(p2)
            &&& found + completed(p, value) + still_to_find(cfg, p2) == found + still_to_find(
                cfg,
                p,
            )
        },
{
    if p.slot < SLOTS {
        let slot = p.slot as int;
        let f = p.function as int;
        let value = cfg(wanted(p));
        let p2 = advance(p, value);
        let tail = devices_from(cfg, slot + 1);
        let a = completed(p, value) + still_to_find(cfg, p2);
        let b = still_to_find(cfg, p);
        assert(slot_start(slot + 1).slot == slot + 1);
        assert(still_to_find(cfg, slot_start(slot + 1)) =~= tail) by {
            if slot + 1 < SLOTS {
                assert(tail == slot_devices(cfg, slot + 1) + devices_from(cfg, slot + 2));
            }
        }
        assert(later_functions(cfg, slot, 8) =~= Seq::<PciDevice>::empty());
        match p.stage {
            Stage::Vendor => {
                assert(value == word_at(cfg, slot, f, 0x00));
                if f > 0 {
                    assert(later_functions(cfg, slot, f) == function_devices(cfg, slot, f)
                        + later_functions(cfg, slot, f + 1));
                }
                assert(a =~= b);
            },
            Stage::Class => {
                assert(value == word_at(cfg, slot, f, 0x08));
                assert(a =~= b);
            },
            Stage::Header => {
                assert(value == word_at(cfg, slot, 0, 0x0C));
                assert(a =~= b);
            },
        }
        assert(found + completed(p, value) + still_to_find(cfg, p2) =~= found + a);
    }
}

/// The first device for which the class and interface are these.
pub open spec fn is_first_of_class(
    devs: Seq<PciDevice>,
    class: u8,
    subclass: u8,
    prog_if: u8,
    i: int,
) -> bool {
    &&& 0 <= i < devs.len()
    &&& devs[i].class == class && devs[i].subclass == subclass && devs[i].prog_if == prog_if
    &&& forall|j: int|
        0 <= j < i ==> !((#[trigger] devs[j]).class == class && devs[j].subclass == subclass
            && devs[j].prog_if == prog_if)
}

/// The first device of this class and interface.
pub fn find_class(devs: &Vec<PciDevice>, class: u8, subclass: u8, prog_if: u8) -> (r: Option<
    PciDevice,
>)
    ensures
        match r {
            Some(d) => exists|i: int| #[trigger]
                is_first_of_class(devs@, class, subclass, prog_if, i) && d == devs@[i],
            None => forall|i: int| !#[trigger]
                is_first_of_class(devs@, class, subclass, prog_if, i),
        },
{
    let mut i: usize = 0;
    while i < devs.len()
        invariant
            i <= devs@.len(),
            forall|j: int|
                0 <= j < i ==> !((#[trigger] devs@[j]).class == class && devs@[j].subclass
                    == subclass && devs@[j].prog_if == prog_if),
        decreases devs@.len() - i,
    {
        let d = devs[i];
        if d.class == class && d.subclass == subclass && d.prog_if == prog_if {
            assert(is_first_of_class(devs@, class, subclass, prog_if, i as int));
            return Some(d);
        }
        i += 1;
    }
    None
}

/// The first device of this vendor and model.
pub open spec fn is_first_model(devs: Seq<PciDevice>, vendor: u16, model: u16, i: int) -> bool {
    &&& 0 <= i < devs.len()
    &&& devs[i].vendor_id == vendor && devs[i].device_id == model
    &&& forall|j: int|
        0 <= j < i ==> !((#[trigger] devs[j]).vendor_id == vendor && devs[j].device_id == model)
}

/// The first device of this vendor and model.
pub fn find_model(devs: &Vec<PciDevice>, vendor: u16, model: u16) -> (r: Option<PciDevice>)
    ensures
        match r {
            Some(d) => exists|i: int| #[trigger]
                is_first_model(devs@, vendor, model, i) && d == devs@[i],
            None => forall|i: int| !#[trigger] is_first_model(devs@, vendor, model, i),
        },
{
    let mut i: usize = 0;
    while i < devs.len()
        invariant
            i <= devs@.len(),
            forall|j: int|
                0 <= j < i ==> !((#[trigger] devs@[j]).vendor_id == vendor && devs@[j].device_id
                    == model),
        decreases devs@.len() - i,
    {
        let d = devs[i];
        if d.vendor_id == vendor && d.device_id == model {
            assert(is_first_model(devs@, vendor, model, i as int));
            return Some(d);
        }
        i += 1;
    }
    None
}

// --- the list of devices -------------------------------------------------------------

/// Where a device is, in print.
pub open spec fn place_text(d: PciDevice) -> Seq<u8> {
    fmt::hex2(d.bus) + fmt::text(":"@) + fmt::hex2(d.device) + fmt::text("."@) + fmt::decimal(
        d.function as nat,
    )
}

/// Appends where a device is.
pub fn push_place(out: &mut Vec<u8>, d: &PciDevice)
    ensures
        final(out)@ == old(out)@ + place_text(*d),
{
    fmt::push_hex2(out, d.bus);
    fmt::push_text(out, ":");
    fmt::push_hex2(out, d.device);
    fmt::push_text(out, ".");
    fmt::push_decimal(out, d.function as u64);
    assert(out@ =~= old(out)@ + place_text(*d));
}

/// The line of a device.
pub open spec fn device_text(d: PciDevice) -> Seq<u8> {
    fmt::text("[pci] "@) + place_text(d) + fmt::text(" vendor=0x"@) + fmt::hex4(d.vendor_id)
        + fmt::text(" device=0x"@) + fmt::hex4(d.device_id) + fmt::text(" class="@) + fmt::hex2(
        d.class,
    ) + fmt::text("."@) + fmt::hex2(d.subclass) + fmt::text(" prog_if=0x"@) + fmt::hex2(d.prog_if)
        + fmt::text("\n"@)
}

fn push_device(out: &mut Vec<u8>, d: &PciDevice)
    ensures
        final(out)@ == old(out)@ + device_text(*d),
{
    fmt::push_text(out, "[pci] ");
    push_place(out, d);
    fmt::push_text(out, " vendor=0x");
    fmt::push_hex4(out, d.vendor_id);
    fmt::push_text(out, " device=0x");
    fmt::push_hex4(out, d.device_id);
    fmt::push_text(out, " class=");
    fmt::push_hex2(out, d.class);
    fmt::push_text(out, ".");
    fmt::push_hex2(out, d.subclass);
    fmt::push_text(out, " prog_if=0x");
    fmt::push_hex2(out, d.prog_if);
    fmt::push_text(out, "\n");
    assert(out@ =~= old(out)@ + device_text(*d));
}

/// The line of a base address register; an unused one has none.
pub open spec fn bar_text(i: int, bar: u32) -> Seq<u8> {
    if bar == 0 {
        Seq::empty()
    } else if bar % 2 == 0 {
        fmt::text("       BAR"@) + fmt::decimal(i as nat) + fmt::text(" = MMIO @ 0x"@) + fmt::hex(
            (bar - bar % 16) as nat,
        ) + fmt::text("\n"@)
    } else {
        fmt::text("       BAR"@) + fmt::decimal(i as nat) + fmt::text(" = I/O port 0x"@)
            + fmt::hex(((bar - bar % 4) % 0x1_0000) as nat) + fmt::text("\n"@)
    }
}

fn push_bar(out: &mut Vec<u8>, i: usize, bar: u32)
    requires
        i < 6,
    ensures
        final(out)@ == old(out)@ + bar_text(i as int, bar),
{
    match describe_bar(bar) {
        Bar::Unused => {},
        Bar::Memory(address) => {
            fmt::push_text(out, "       BAR");
            fmt::push_decimal(out, i as u64);
            fmt::push_text(out, " = MMIO @ 0x");
            fmt::push_hex(out, address);
            fmt::push_text(out, "\n");
        },
        Bar::Io(port) => {
            fmt::push_text(out, "       BAR");
            fmt::push_decimal(out, i as u64);
            fmt::push_text(out, " = I/O port 0x");
            fmt::push_hex(out, port as u64);
            fmt::push_text(out, "\n");
        },
    }
    assert(out@ =~= old(out)@ + bar_text(i as int, bar));
}

/// The lines of the first `n` base address registers.
pub open spec fn bars_text(bars: Seq<u32>, n: nat) -> Seq<u8>
    decreases n,
{
    if n == 0 {
        Seq::empty()
    } else {
        bars_text(bars, (n - 1) as nat) + bar_text(n - 1, bars[n - 1])
    }
}

/// The lines of the first `n` devices, each with its base addresses.
pub open spec fn devices_text(devs: Seq<PciDevice>, bars: Seq<[u32; 6]>, n: nat) -> Seq<u8>
    decreases n,
{
    if n == 0 {
        Seq::empty()
    } else {
        devices_text(devs, bars, (n - 1) as nat) + device_text(devs[n - 1]) + bars_text(
            bars[n - 1]@,
            6,
        )
    }
}

/// What is printed of the devices that a search found, given their base
/// addresses.
pub fn scan_and_print(devs: &Vec<PciDevice>, bars: &Vec<[u32; 6]>) -> (r: Vec<u8>)
    requires
        devs@.len() == bars@.len(),
    ensures
        r@ == devices_text(devs@, bars@, devs@.len()) + fmt::text("[pci] "@) + fmt::decimal(
            devs@.len(),
        ) + fmt::text(" dispositivo(s) encontrados\n"@),
{
    let mut out: Vec<u8> = Vec::new();
    let mut n: usize = 0;
    assert(out@ =~= devices_text(devs@, bars@, 0));
    while n < devs.len()
        invariant
            n <= devs@.len(),
            devs@.len() == bars@.len(),
            out@ == devices_text(devs@, bars@, n as nat),
        decreases devs@.len() - n,
    {
        let ghost before = out@;
        push_device(&mut out, &devs[n]);
        let ghost head = out@;
        let regs = bars[n];
        let mut i: usize = 0;
        assert(out@ =~= head + bars_text(regs@, 0));
        while i < 6
            invariant
                i <= 6,
                out@ == head + bars_text(regs@, i as nat),
            decreases 6 - i,
        {
            push_bar(&mut out, i, regs[i]);
            i += 1;
            assert(out@ =~= head + bars_text(regs@, i as nat));
        }
        n += 1;
        assert(out@ =~= devices_text(devs@, bars@, n as nat));
    }
    fmt::push_text(&mut out, "[pci] ");
    fmt::push_decimal(&mut out, devs.len() as u64);
    fmt::push_text(&mut out, " dispositivo(s) encontrados\n");
    out
}

/// Whether `d` is what the configuration words of its place say: somebody answers
/// there, and its numbers are the halves of word 0 and the upper three bytes of
/// word 8. Functions above 0 count where function 0 answers and says that it has
/// others beside it.
pub open spec fn answers(cfg: ConfigSpace, d: PciDevice) -> bool {
    let (bus, device, function) = (d.bus, d.device, d.function);
    let w0 = cfg(ConfigRead { bus, device, function, offset: 0 });
    let w2 = cfg(ConfigRead { bus, device, function, offset: 8 });
    &&& d.device < 32
    &&& d.function < 8
    &&& w0 % 0x1_0000 != 0xFFFF
    &&& d.function > 0 ==> cfg(ConfigRead { bus, device, function: 0, offset: 0 }) % 0x1_0000 != 0xFFFF
        && cfg(ConfigRead { bus, device, function: 0, offset: 12 }) / 0x80_0000 % 2 == 1
    &&& w0 == d.vendor_id + 0x1_0000 * d.device_id
    &&& w2 / 0x100 == d.prog_if + 0x100 * d.subclass + 0x1_0000 * d.class
}

/// The number of a place in the order of the scan.
pub open spec fn place_of(d: PciDevice) -> int {
    d.bus * 256 + d.device * 8 + d.function
}

/// The scan lists every device that answers, and nothing else, in the order of
/// their places; so none is listed twice.
pub proof fn law_every_device_is_listed(cfg: ConfigSpace)
    ensures
        forall|i: int| 0 <= i < enumerate(cfg).len() ==> answers(cfg, #[trigger] enumerate(cfg)[i]),
        forall|i: int, j: int|
            0 <= i < j < enumerate(cfg).len() ==> place_of(#[trigger] enumerate(cfg)[i]) < place_of(
                #[trigger] enumerate(cfg)[j],
            ),
        forall|d: PciDevice| #[trigger] answers(cfg, d) ==> enumerate(cfg).contains(d),
{
    lemma_listed_from(cfg, 0);
    assert forall|d: PciDevice| #[trigger] answers(cfg, d) implies enumerate(cfg).contains(d) by {
        lemma_found_from(cfg, 0, d);
    }
}

/// Whether `devs` are devices that answer, in order, at places from `from` up to
/// before `to`.
spec fn in_places(cfg: ConfigSpace, devs: Seq<PciDevice>, from: int, to: int) -> bool {
    &&& forall|i: int|
        0 <= i < devs.len() ==> answers(cfg, #[trigger] devs[i]) && from <= place_of(devs[i]) < to
    &&& forall|i: int, j: int|
        0 <= i < j < devs.len() ==> place_of(#[trigger] devs[i]) < place_of(#[trigger] devs[j])
}

proof fn lemma_join_places(
    cfg: ConfigSpace,
    a: Seq<PciDevice>,
    b: Seq<PciDevice>,
    from: int,
    mid: int,
    to: int,
)
    requires
        from <= mid <= to,
        in_places(cfg, a, from, mid),
        in_places(cfg, b, mid, to),
    ensures
        in_places(cfg, a + b, from, to),
{
    let s = a + b;
    assert forall|i: int| 0 <= i < s.len() implies answers(cfg, #[trigger] s[i]) && from <= place_of(
        s[i],
    ) < to by {
        if i < a.len() {
            assert(s[i] == a[i]);
        } else {
            assert(s[i] == b[i - a.len()]);
        }
    }
    assert forall|i: int, j: int| 0 <= i < j < s.len() implies place_of(#[trigger] s[i]) < place_of(
        #[trigger] s[j],
    ) by {
        if j < a.len() {
            assert(s[i] == a[i] && s[j] == a[j]);
        } else if i >= a.len() {
            assert(s[i] == b[i - a.len()] && s[j] == b[j - a.len()]);
        } else {
            assert(s[i] == a[i] && s[j] == b[j - a.len()]);
        }
    }
}

proof fn lemma_function(cfg: ConfigSpace, slot: int, function: int)
    requires
        0 <= slot < SLOTS,
        0 <= function < 8,
        function > 0 ==> is_there(word_at(cfg, slot, 0, 0x00)) && multi_function(
            word_at(cfg, slot, 0, 0x0C),
        ),
    ensures
        in_places(
            cfg,
            function_devices(cfg, slot, function),
            slot * 8 + function,
            slot * 8 + function + 1,
        ),
        forall|d: PciDevice|
            answers(cfg, d) && #[trigger] place_of(d) == slot * 8 + function ==> function_devices(
                cfg,
                slot,
                function,
            ).contains(d),
{
    let devs = function_devices(cfg, slot, function);
    let w0 = word_at(cfg, slot, function, 0x00);
    let w2 = word_at(cfg, slot, function, 0x08);
    lemma_header(word_at(cfg, slot, 0, 0x0C));
    if is_there(w0) {
        let d = devs[0];
        assert(w0 == d.vendor_id + 0x1_0000 * d.device_id);
        assert(w2 / 0x100 == d.prog_if + 0x100 * d.subclass + 0x1_0000 * d.class);
        assert(d.bus * 32 + d.device == slot);
        assert(answers(cfg, d));
    }
    assert forall|d: PciDevice|
        answers(cfg, d) && #[trigger] place_of(d) == slot * 8 + function implies devs.contains(d) by {
        assert(d.function == function && d.bus * 32 + d.device == slot);
        assert(d.bus == slot / 32 && d.device == slot % 32);
        assert(w0 % 0x1_0000 == d.vendor_id && w0 / 0x1_0000 == d.device_id);
        assert(w2 / 0x100_0000 == d.class && (w2 / 0x1_0000) % 0x100 == d.subclass && (w2 / 0x100)
            % 0x100 == d.prog_if);
        assert(devs[0] == d);
    }
}

proof fn lemma_header(w: u32)
    ensures
        multi_function(w) == (w / 0x80_0000 % 2 == 1),
{
}

proof fn lemma_later(cfg: ConfigSpace, slot: int, function: int)
    requires
        0 <= slot < SLOTS,
        1 <= function <= 8,
        is_there(word_at(cfg, slot, 0, 0x00)),
        multi_function(word_at(cfg, slot, 0, 0x0C)),
    ensures
        in_places(
            cfg,
            later_functions(cfg, slot, function),
            slot * 8 + function,
            slot * 8 + 8,
        ),
        forall|d: PciDevice|
            answers(cfg, d) && slot * 8 + function <= #[trigger] place_of(d) < slot * 8 + 8
                ==> later_functions(cfg, slot, function).contains(d),
    decreases 8 - function,
{
    if function < 8 {
        let a = function_devices(cfg, slot, function);
        let b = later_functions(cfg, slot, function + 1);
        lemma_function(cfg, slot, function);
        lemma_later(cfg, slot, function + 1);
        lemma_join_places(
            cfg,
            a,
            b,
            slot * 8 + function,
            slot * 8 + function + 1,
            slot * 8 + 8,
        );
        assert forall|d: PciDevice|
            answers(cfg, d) && slot * 8 + function <= #[trigger] place_of(d) < slot * 8 + 8 implies (a
            + b).contains(d) by {
            lemma_either(a, b, d);
        }
    }
}

proof fn lemma_either(a: Seq<PciDevice>, b: Seq<PciDevice>, d: PciDevice)
    ensures
        (a + b).contains(d) <==> a.contains(d) || b.contains(d),
{
    if a.contains(d) {
        let i = choose|i: int| 0 <= i < a.len() && a[i] == d;
        assert((a + b)[i] == d);
    }
    if b.contains(d) {
        let i = choose|i: int| 0 <= i < b.len() && b[i] == d;
        assert((a + b)[a.len() + i] == d);
    }
}

proof fn lemma_slot(cfg: ConfigSpace, slot: int)
    requires
        0 <= slot < SLOTS,
    ensures
        in_places(cfg, slot_devices(cfg, slot), slot * 8, slot * 8 + 8),
        forall|d: PciDevice|
            answers(cfg, d) && slot * 8 <= #[trigger] place_of(d) < slot * 8 + 8 ==> slot_devices(
                cfg,
                slot,
            ).contains(d),
{
    let a = function_devices(cfg, slot, 0);
    lemma_function(cfg, slot, 0);
    lemma_header(word_at(cfg, slot, 0, 0x0C));
    if is_there(word_at(cfg, slot, 0, 0x00)) && multi_function(word_at(cfg, slot, 0, 0x0C)) {
        let b = later_functions(cfg, slot, 1);
        lemma_later(cfg, slot, 1);
        lemma_join_places(cfg, a, b, slot * 8, slot * 8 + 1, slot * 8 + 8);
        assert forall|d: PciDevice|
            answers(cfg, d) && slot * 8 <= #[trigger] place_of(d) < slot * 8 + 8 implies (a
            + b).contains(d) by {
            lemma_either(a, b, d);
        }
    } else {
        assert forall|d: PciDevice|
            answers(cfg, d) && slot * 8 <= #[trigger] place_of(d) < slot * 8 + 8 implies a.contains(
            d,
        ) by {
            assert(d.bus * 32 + d.device == slot);
            assert(d.bus == slot / 32 && d.device == slot % 32);
            assert(d.function == 0);
        }
    }
}

proof fn lemma_listed_from(cfg: ConfigSpace, slot: int)
    requires
        0 <= slot <= SLOTS,
    ensures
        in_places(cfg, devices_from(cfg, slot), slot * 8, SLOTS * 8),
    decreases SLOTS - slot,
{
    if slot < SLOTS {
        lemma_slot(cfg, slot);
        lemma_listed_from(cfg, slot + 1);
        lemma_join_places(
            cfg,
            slot_devices(cfg, slot),
            devices_from(cfg, slot + 1),
            slot * 8,
            slot * 8 + 8,
            SLOTS * 8,
        );
    }
}

proof fn lemma_found_from(cfg: ConfigSpace, slot: int, d: PciDevice)
    requires
        0 <= slot <= SLOTS,
        answers(cfg, d),
        place_of(d) >= slot * 8,
    ensures
        devices_from(cfg, slot).contains(d),
    decreases SLOTS - slot,
{
    if slot < SLOTS {
        lemma_either(slot_devices(cfg, slot), devices_from(cfg, slot + 1), d);
        if place_of(d) < slot * 8 + 8 {
            lemma_slot(cfg, slot);
        } else {
            lemma_found_from(cfg, slot + 1, d);
        }
    }
}

/// Writing half of a word leaves the other half as it was.
pub proof fn law_half_is_written(dword: u32, offset: u8, value: u16)
    ensures
        offset % 4 < 2 ==> with_half(dword, offset, value) % 0x1_0000 == value && with_half(
            dword,
            offset,
            value,
        ) / 0x1_0000 == dword / 0x1_0000,
        offset % 4 >= 2 ==> with_half(dword, offset, value) / 0x1_0000 == value && with_half(
            dword,
            offset,
            value,
        ) % 0x1_0000 == dword % 0x1_0000,
        0 <= with_half(dword, offset, value) <= u32::MAX,
{
}

} // verus!
