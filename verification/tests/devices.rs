//! Buses, controllers, the keyboard, the serial port and the screen.
use forge_kernel::ahci::{self, DeviceKind, Probe, ProbeAction, ProbeStage};
use forge_kernel::bytes;
use forge_kernel::framebuffer::{self, Detected, Framebuffer, Mode};
use forge_kernel::io::PortIo;
use forge_kernel::keyboard::{self, Keyboard};
use forge_kernel::mem::PhysMemory;
use forge_kernel::pci::{self, Bar, ConfigWrite, PciDevice, Scan};
use forge_kernel::pmm::{self, FrameBitmap};
use forge_kernel::psf::PsfFont;
use forge_kernel::rtl8139::{
    self, CardAccess, CardSetup, Nic, Received, SendStage, SetupStage, Startup, StartupStage,
};
use forge_kernel::serial::SerialPort;

fn text(v: Vec<u8>) -> String {
    String::from_utf8(v).unwrap()
}

fn device(bus: u8, device: u8, function: u8, vendor_id: u16, device_id: u16, class: (u8, u8, u8)) -> PciDevice {
    PciDevice {
        bus,
        device,
        function,
        vendor_id,
        device_id,
        class: class.0,
        subclass: class.1,
        prog_if: class.2,
    }
}

// --- bytes -------------------------------------------------------------------------

#[test]
fn integers_are_read_in_both_orders() {
    let b = [0x01, 0x02, 0x03, 0x04, 0x05, 0x06, 0x07, 0x08];
    assert_eq!(bytes::u16_at(&b, 1), 0x0302);
    assert_eq!(bytes::u32_at(&b, 0), 0x0403_0201);
    assert_eq!(bytes::u64_at(&b, 0), 0x0807_0605_0403_0201);
    assert_eq!(bytes::be16_at(&b, 6), 0x0708);
    let mut v = vec![9];
    bytes::push_be16(&mut v, 0x0A0B);
    bytes::push_all(&mut v, &[1, 2]);
    assert_eq!(v, [9, 0x0A, 0x0B, 1, 2]);
}

// --- PCI ---------------------------------------------------------------------------

#[test]
fn configuration_addresses_hold_their_parts() {
    assert_eq!(pci::config_address(0, 0, 0, 0), 0x8000_0000);
    assert_eq!(pci::config_address(1, 2, 3, 0x3C), 0x8001_133C);
    assert_eq!(pci::config_address(0, 0, 0, 0x05), 0x8000_0004);
}

#[test]
fn half_words_are_written_in_place() {
    let w = pci::write_config_u16(0, 3, 0, 0x04, 0x0290_0103, 0x0107);
    assert_eq!(w.value, 0x0290_0107);
    let w = pci::write_config_u16(0, 3, 0, 0x06, 0x0290_0103, 0x0107);
    assert_eq!(w.value, 0x0107_0103);
    let d = device(0, 3, 0, 0x10EC, 0x8139, (2, 0, 0));
    assert_eq!(pci::enable_bus_master(&d, 0x0290_0103).value, 0x0290_0107);
}

#[test]
fn base_addresses_are_told_apart() {
    assert!(pci::bar_is_memory(0xFEBD_1000));
    assert_eq!(pci::bar_memory_address(0xFEBD_1008), 0xFEBD_1000);
    assert_eq!(pci::bar_io_port(0xC001), 0xC000);
    assert_eq!(pci::describe_bar(0), Bar::Unused);
    assert_eq!(pci::describe_bar(0xFEBD_1008), Bar::Memory(0xFEBD_1000));
    assert_eq!(pci::describe_bar(0xC101), Bar::Io(0xC100));
    let reads = pci::read_bars(0, 4, 1);
    assert_eq!(reads.len(), 6);
    assert_eq!(reads[5].offset, 0x24);
}

/// Answers a scan from a small machine: a host bridge at 0:0.0, and a device
/// with two functions at 0:3.
fn config_word(bus: u8, dev: u8, function: u8, offset: u8) -> u32 {
    match (bus, dev, function, offset) {
        (0, 0, 0, 0x00) => 0x1237_8086,
        (0, 0, 0, 0x08) => 0x0600_0002,
        (0, 0, 0, 0x0C) => 0,
        (0, 3, 0, 0x00) => 0x2922_8086,
        (0, 3, 0, 0x08) => 0x0106_0102,
        (0, 3, 0, 0x0C) => 0x0080_0000,
        (0, 3, 5, 0x00) => 0x8139_10EC,
        (0, 3, 5, 0x08) => 0x0200_0020,
        (0, 3, 5, 0x0C) => 0,
        _ => 0xFFFF_FFFF,
    }
}

#[test]
fn a_scan_finds_every_function() {
    let mut scan = Scan::new();
    let mut reads: u32 = 0;
    while let Some(r) = scan.request() {
        scan.supply(config_word(r.bus, r.device, r.function, r.offset));
        reads += 1;
    }
    assert!(reads >= 8192);
    assert_eq!(scan.found.len(), 3);
    assert_eq!((scan.found[2].device, scan.found[2].function), (3, 5));
    assert_eq!(scan.found[2].vendor_id, 0x10EC);
    let ahci_dev = ahci::find_controller(&scan.found).unwrap();
    assert_eq!((ahci_dev.device, ahci_dev.function, ahci_dev.device_id), (3, 0, 0x2922));
    let nic = rtl8139::find_controller(&scan.found).unwrap();
    assert_eq!(nic.function, 5);
    assert!(pci::find_class(&scan.found, 9, 9, 9).is_none());
    assert!(pci::find_model(&scan.found, 1, 1).is_none());
}

#[test]
fn the_device_list_is_printed() {
    let devs = vec![device(0, 31, 2, 0x8086, 0x2922, (1, 6, 1))];
    let bars = vec![[0, 0xC101, 0, 0, 0, 0xFEBD_1000]];
    assert_eq!(
        text(pci::scan_and_print(&devs, &bars)),
        "[pci] 00:1f.2 vendor=0x8086 device=0x2922 class=01.06 prog_if=0x01\n       BAR1 = I/O port 0xc100\n       BAR5 = MMIO @ 0xfebd1000\n[pci] 1 dispositivo(s) encontrados\n"
    );
    assert_eq!(text(pci::scan_and_print(&vec![], &vec![])), "[pci] 0 dispositivo(s) encontrados\n");
}

// --- AHCI --------------------------------------------------------------------------

#[test]
fn a_controller_is_asked_for_its_devices() {
    assert_eq!(ahci::register_base(0xFEBD_1000), Some(0xFEBD_1000));
    assert_eq!(ahci::register_base(0), None);
    assert_eq!(ahci::register_base(0xC001), None);
    let base = 0xFEBD_1000u64;
    let mut probe = Probe::new(base);
    let mut writes: Vec<(u64, u32)> = Vec::new();
    loop {
        match probe.request() {
            ProbeAction::Finished => break,
            ProbeAction::Write(w) => {
                writes.push((w.addr, w.value));
                probe.supply(0);
            },
            ProbeAction::Read(a) => {
                let v = match a - base {
                    0x04 => 0x2,
                    0x00 => 0xC3,
                    0x0C => 0b1011,
                    0x128 => 0x113,
                    0x124 => 0x101,
                    0x1A8 => 0,
                    0x2A8 => 0x3,
                    0x2A4 => 0xEB14_0101,
                    _ => panic!("unexpected register"),
                };
                probe.supply(v);
            },
        }
    }
    assert_eq!(probe.stage, ProbeStage::Finished);
    assert_eq!(writes, [(base + 4, 0x8000_0002)]);
    assert_eq!(probe.num_ports(), 4);
    assert_eq!(probe.found.len(), 2);
    assert_eq!((probe.found[0].port, probe.found[0].kind), (0, DeviceKind::Disk));
    assert_eq!((probe.found[1].port, probe.found[1].kind), (3, DeviceKind::Atapi));
    assert_eq!(
        text(ahci::probe_and_print(&probe)),
        "[ahci] CAP=0xc3 (4 puertos soportados), PI=0xb\n[ahci] puerto 0: disco SATA (ATA) (sig=0x101)\n[ahci] puerto 3: unidad ATAPI (CD/DVD) (sig=0xeb140101)\n"
    );
}

#[test]
fn a_controller_without_devices_says_so() {
    let mut probe = Probe::new(0x1000);
    for v in [0, 0, 0x1F, 0] {
        probe.supply(v);
    }
    assert!(matches!(probe.request(), ProbeAction::Finished));
    assert_eq!(
        text(ahci::probe_and_print(&probe)),
        "[ahci] CAP=0x1f (32 puertos soportados), PI=0x0\n[ahci] ningún puerto con dispositivo activo (¿VM sin disco SATA adjunto?)\n"
    );
    assert_eq!(text(ahci::controller_report(&None, 0)), "[ahci] no se encontró ningún controlador AHCI\n");
    let d = device(0, 31, 2, 0x8086, 0x2922, (1, 6, 1));
    assert_eq!(
        text(ahci::controller_report(&Some(d), 0)),
        "[ahci] controlador en 00:1f.2 (vendor=0x8086 device=0x2922)\n[ahci] BAR5 (ABAR) inválido o ausente — abortando\n"
    );
    assert_eq!(
        text(ahci::controller_report(&Some(d), 0xFEBD_1000)),
        "[ahci] controlador en 00:1f.2 (vendor=0x8086 device=0x2922)\n[ahci] ABAR @ 0xfebd1000\n"
    );
}

// --- RTL8139 -----------------------------------------------------------------------

const MAC: [u8; 6] = [0x52, 0x54, 0x00, 0x12, 0x34, 0x56];

#[test]
fn a_card_starts_and_tells_its_address() {
    assert_eq!(rtl8139::io_port(0xC001), Some(0xC000));
    assert_eq!(rtl8139::io_port(0xFEBD_0000), None);
    let mut s = Startup::new(0xC000, 3);
    assert_eq!(s.request(), Some(PortIo::Write8(0xC052, 0)));
    s.supply(0);
    assert_eq!(s.request(), Some(PortIo::Write8(0xC037, 0x10)));
    s.supply(0);
    assert_eq!(s.request(), Some(PortIo::Read8(0xC037)));
    s.supply(0x10);
    s.supply(0x10);
    s.supply(0x00);
    for (i, b) in MAC.iter().enumerate() {
        assert_eq!(s.request(), Some(PortIo::Read8(0xC000 + i as u16)));
        s.supply(*b);
    }
    assert_eq!(s.request(), None);
    assert_eq!(s.stage, StartupStage::Ready);
    assert_eq!(s.mac, MAC);
    assert_eq!(text(rtl8139::probe_and_print(&s)), "[rtl8139] MAC = 52:54:00:12:34:56\n");
}

#[test]
fn a_card_that_hangs_is_given_up() {
    let mut s = Startup::new(0xC000, 2);
    s.supply(0);
    s.supply(0);
    s.supply(0x10);
    assert_eq!(s.stage, StartupStage::Wait(1));
    s.supply(0x1D);
    assert_eq!(s.stage, StartupStage::TimedOut);
    assert_eq!(s.request(), None);
    assert_eq!(text(rtl8139::probe_and_print(&s)), "[rtl8139] el reset no terminó a tiempo — abortando\n");
}

#[test]
fn a_card_is_described() {
    assert_eq!(text(rtl8139::card_report(&None, 0)), "[rtl8139] no se encontró ninguna tarjeta RTL8139\n");
    let d = device(0, 3, 0, 0x10EC, 0x8139, (2, 0, 0));
    assert_eq!(
        text(rtl8139::card_report(&Some(d), 0xC101)),
        "[rtl8139] tarjeta en 00:03.0\n[rtl8139] I/O base = 0xc100\n"
    );
    assert_eq!(
        text(rtl8139::card_report(&Some(d), 0xFEBD_0000)),
        "[rtl8139] tarjeta en 00:03.0\n[rtl8139] BAR0 es MMIO — esta pasada solo soporta acceso por I/O port\n"
    );
}

/// How a machine answers while a card is set up.
struct Answers {
    /// Whether there is a card at 0:3.0.
    present: bool,
    bar0: u32,
    /// Reads of the command register for which the reset lasts.
    reset_reads: u32,
}

/// Sets a card up and notes what is written on the way.
fn set_up(mem: &mut PhysMemory, pmm: &mut FrameBitmap, a: &Answers) -> (CardSetup, Vec<CardAccess>) {
    let mut setup = rtl8139::init_full();
    let mut writes = Vec::new();
    let mut reads = 0;
    while let Some(access) = setup.request() {
        let value = match access {
            CardAccess::Config(r) => match (r.bus, r.device, r.function, r.offset) {
                (0, 3, 0, 0x00) if a.present => 0x8139_10EC,
                (0, 3, 0, 0x08) => 0x0200_0020,
                (0, 3, 0, 0x0C) => 0,
                (0, 3, 0, 0x04) => 0x0290_0103,
                (0, 3, 0, 0x10) => a.bar0,
                _ => 0xFFFF_FFFF,
            },
            CardAccess::Port(PortIo::Read8(0xC037)) => {
                reads += 1;
                if reads <= a.reset_reads {
                    0x10
                } else {
                    0
                }
            },
            CardAccess::Port(PortIo::Read8(port)) => MAC[port as usize - 0xC000] as u32,
            w => {
                writes.push(w);
                0
            },
        };
        setup.supply(mem, pmm, value);
    }
    (setup, writes)
}

const WORKING: Answers = Answers { present: true, bar0: 0xC001, reset_reads: 3 };

fn card() -> (Nic, PhysMemory, Vec<CardAccess>) {
    let mut mem = PhysMemory::new(0, vec![0u64; 24 * 512]);
    let mut pmm = FrameBitmap::new();
    for f in [4u64, 8, 9, 10, 11, 12, 13] {
        pmm::free_frame(&mut pmm, f * 4096);
    }
    let (setup, writes) = set_up(&mut mem, &mut pmm, &WORKING);
    assert_eq!(setup.stage, SetupStage::Up);
    assert_eq!(pmm::free_frame_count(&pmm), 0);
    assert_eq!(
        text(setup.report()),
        "[rtl8139] TX/RX inicializados — RX buffer @ 0x8000 (3 frames), MAC 52:54:00:12:34:56\n"
    );
    (setup.card().unwrap(), mem, writes)
}

#[test]
fn a_card_gets_its_buffers() {
    let (nic, _, writes) = card();
    assert_eq!(nic.rx_buf_phys, 8 * 4096);
    assert_eq!(nic.tx_buffers, [4 * 4096, 11 * 4096, 12 * 4096, 13 * 4096]);
    assert_eq!((nic.io_base, nic.mac), (0xC000, MAC));
    let master = ConfigWrite { bus: 0, device: 3, function: 0, offset: 4, value: 0x0290_0107 };
    assert_eq!(
        writes,
        [
            CardAccess::Assign(master),
            CardAccess::Port(PortIo::Write8(0xC052, 0)),
            CardAccess::Port(PortIo::Write8(0xC037, 0x10)),
            CardAccess::Port(PortIo::Write32(0xC030, 0x8000)),
            CardAccess::Port(PortIo::Write32(0xC020, 0x4000)),
            CardAccess::Port(PortIo::Write32(0xC024, 0xB000)),
            CardAccess::Port(PortIo::Write32(0xC028, 0xC000)),
            CardAccess::Port(PortIo::Write32(0xC02C, 0xD000)),
            CardAccess::Port(PortIo::Write8(0xC037, 0x0C)),
            CardAccess::Port(PortIo::Write32(0xC044, 0x8E)),
            CardAccess::Port(PortIo::Write32(0xC040, 0x0300_0000)),
        ]
    );
}

#[test]
fn a_card_without_memory_is_not_turned_on() {
    let mut mem = PhysMemory::new(0, vec![0u64; 32 * 512]);
    let mut pmm = FrameBitmap::new();
    pmm::free_frame(&mut pmm, 8 * 4096);
    let (setup, writes) = set_up(&mut mem, &mut pmm, &WORKING);
    assert_eq!(setup.stage, SetupStage::NoFrames);
    assert_eq!(writes.len(), 3);
    assert!(setup.card().is_none());
    assert_eq!(pmm::free_frame_count(&pmm), 1);
    for f in 9..13 {
        pmm::free_frame(&mut pmm, f * 4096);
    }
    let (setup, writes) = set_up(&mut mem, &mut pmm, &WORKING);
    assert_eq!(setup.stage, SetupStage::NoFrames);
    assert_eq!(writes.len(), 6);
    assert!(setup.report().is_empty() && setup.card().is_none());
}

#[test]
fn a_card_needs_every_stage() {
    let mut mem = PhysMemory::new(0, vec![0u64; 32 * 512]);
    let mut pmm = FrameBitmap::new();
    for f in 8..20 {
        pmm::free_frame(&mut pmm, f * 4096);
    }
    let (setup, writes) = set_up(&mut mem, &mut pmm, &Answers { present: false, ..WORKING });
    assert_eq!((setup.stage, writes.len()), (SetupStage::NoCard, 0));
    for bar0 in [0, 0xFEBD_0000] {
        let (setup, writes) = set_up(&mut mem, &mut pmm, &Answers { bar0, ..WORKING });
        assert_eq!((setup.stage, writes.len()), (SetupStage::NotPorts, 1));
        assert_eq!(text(setup.report()), rtl8139::BAD_BAR);
    }
    let stuck = Answers { reset_reads: rtl8139::PATIENCE, ..WORKING };
    let (setup, writes) = set_up(&mut mem, &mut pmm, &stuck);
    assert_eq!((setup.stage, writes.len()), (SetupStage::Stuck, 3));
    assert_eq!(text(setup.report()), rtl8139::STUCK);
    assert_eq!(pmm::free_frame_count(&pmm), 12);
    let late = Answers { reset_reads: rtl8139::PATIENCE - 1, ..WORKING };
    assert_eq!(set_up(&mut mem, &mut pmm, &late).0.stage, SetupStage::Up);
    assert_eq!(pmm::free_frame_count(&pmm), 5);
}

#[test]
fn frames_are_padded_and_sent_in_turn() {
    let (mut nic, mut mem, _) = card();
    mem.write_byte(4 * 4096, 59, 0xEE);
    let mut t = rtl8139::send(&mut nic, &mut mem, &[1, 2, 3]).unwrap();
    assert_eq!(nic.tx_next, 1);
    assert_eq!(mem.read_byte(4 * 4096, 2), 3);
    assert_eq!(mem.read_byte(4 * 4096, 59), 0);
    assert_eq!(t.request(), Some(PortIo::Write32(0xC010, 60)));
    t.supply(0);
    assert_eq!(t.request(), Some(PortIo::Read32(0xC010)));
    t.supply(0x2000);
    t.supply(0x8000);
    assert_eq!(t.request(), None);
    assert_eq!(t.result(), Ok(()));
    let t = rtl8139::send(&mut nic, &mut mem, &[7u8; 100]).unwrap();
    assert_eq!(t.request(), Some(PortIo::Write32(0xC014, 100)));
    assert_eq!(mem.read_byte(11 * 4096, 99), 7);
    for _ in 0..2 {
        rtl8139::send(&mut nic, &mut mem, &[0]).unwrap();
    }
    assert_eq!(nic.tx_next, 0);
    assert_eq!(rtl8139::send(&mut nic, &mut mem, &[0u8; 1537]).err(), Some(rtl8139::ERR_TOO_LARGE));
    assert_eq!(nic.tx_next, 0);
}

#[test]
fn a_frame_that_is_not_sent_times_out() {
    let (mut nic, mut mem, _) = card();
    let mut t = rtl8139::send(&mut nic, &mut mem, &[1]).unwrap();
    t.supply(0);
    for _ in 0..rtl8139::PATIENCE - 1 {
        t.supply(0);
    }
    assert_eq!(t.stage, SendStage::Wait(1));
    t.supply(0);
    assert_eq!(t.result(), Err(rtl8139::ERR_TX_TIMEOUT));
}

/// Puts a packet into the ring as the card does.
fn deliver(mem: &mut PhysMemory, nic: &Nic, at: u32, status: u16, data: &[u8]) {
    let mut packet = status.to_le_bytes().to_vec();
    packet.extend_from_slice(&(data.len() as u16 + 4).to_le_bytes());
    packet.extend_from_slice(data);
    for (i, b) in packet.iter().enumerate() {
        let off = at as u64 + i as u64;
        mem.write_byte(nic.rx_buf_phys + off / 4096 * 4096, (off % 4096) as usize, *b);
    }
}

#[test]
fn packets_come_out_of_the_ring() {
    let (mut nic, mut mem, _) = card();
    let mut log = Vec::new();
    assert!(matches!(rtl8139::poll_rx(&mut nic, &mem, 0x01, &mut log), Received::Empty));
    deliver(&mut mem, &nic, 0, 1, &[1, 2, 3, 4, 5]);
    match rtl8139::poll_rx(&mut nic, &mem, 0x0C, &mut log) {
        Received::Packet(data, ack) => {
            assert_eq!(data, [1, 2, 3, 4, 5]);
            // 4 of header, 5 of data, 4 of checksum, rounded up to 16.
            assert_eq!(nic.rx_cur, 16);
            assert_eq!(ack, PortIo::Write16(0xC038, 0));
        },
        _ => panic!("no packet"),
    }
    // A packet that runs over the end of the ring.
    nic.rx_cur = 8188;
    deliver(&mut mem, &nic, 8188, 1, &[9; 20]);
    match rtl8139::poll_rx(&mut nic, &mem, 0x0C, &mut log) {
        Received::Packet(data, ack) => {
            assert_eq!(data, [9; 20]);
            assert_eq!(nic.rx_cur, 24);
            assert_eq!(ack, PortIo::Write16(0xC038, 8));
        },
        _ => panic!("no packet"),
    }
    nic.rx_cur = 0;
    deliver(&mut mem, &nic, 0, 0x8000, &[1]);
    assert!(matches!(rtl8139::poll_rx(&mut nic, &mem, 0, &mut log), Received::Corrupt(0x8000)));
    assert_eq!(text(log), "[rtl8139] paquete RX con error, status=0x8000\n");
    let mut log = Vec::new();
    nic.rx_cur = 8000;
    mem.write_bytes(nic.rx_buf_phys + 4096, 8000 - 4096, &[1, 0, 0xFF, 0xFF]);
    // A length past the ring, and past all memory.
    match rtl8139::poll_rx(&mut nic, &mem, 0, &mut log) {
        Received::Packet(data, ack) => {
            assert_eq!(data.len(), 65531);
            let behind = nic.rx_buf_phys + 12288;
            assert!(mem.contains(behind));
            assert_eq!(data[12288 - 8004], mem.read_byte(behind, 0));
            assert!(!mem.contains((nic.rx_buf_phys + 8004 + 65530) / 4096 * 4096));
            assert_eq!(data[65530], 0xFF);
            assert_eq!(nic.rx_cur, 8004);
            assert_eq!(ack, PortIo::Write16(0xC038, 7988));
        },
        _ => panic!("no packet"),
    }
}

// --- keyboard and serial port --------------------------------------------------------

#[test]
fn keys_are_typed_and_read() {
    let mut k = Keyboard::new();
    assert_eq!(k.try_read_byte(), None);
    let w = k.keyboard_interrupt_handler(0x1E);
    assert_eq!((w.len(), w[0].port, w[0].value), (1, 0x20, 0x20));
    k.keyboard_interrupt_handler(0x9E);
    k.keyboard_interrupt_handler(0x2A);
    k.keyboard_interrupt_handler(0x1E);
    k.keyboard_interrupt_handler(0xAA);
    k.keyboard_interrupt_handler(0x30);
    assert_eq!(k.try_read_byte(), Some(b'a'));
    assert_eq!(k.try_read_byte(), Some(b'A'));
    assert_eq!(k.try_read_byte(), Some(b'b'));
    assert_eq!(k.try_read_byte(), None);
    for _ in 0..100 {
        k.keyboard_interrupt_handler(0x1E);
    }
    let mut n = 0;
    while k.try_read_byte().is_some() {
        n += 1;
    }
    assert_eq!(n, keyboard::BUF_SIZE - 1);
    let m = keyboard::init(0xFF);
    assert_eq!((m.port, m.value), (0x21, 0xFD));
}

#[test]
fn the_serial_port_waits_for_room() {
    let (port, writes) = SerialPort::init();
    assert!(!writes.is_empty());
    assert_eq!(port.write_byte(0x00, b'x'), None);
    let w = port.write_byte(0x20, b'x').unwrap();
    assert_eq!((w.port, w.value), (0x3F8, b'x'));
    assert!(SerialPort::has_byte(0x01));
    assert!(!SerialPort::has_byte(0x20));
}

// --- screen ------------------------------------------------------------------------

fn screen_info(bpp: u8) -> Vec<u8> {
    let mut v: Vec<u8> = Vec::new();
    for x in [8u32 + 32 + 8, 0, 8, 31] {
        v.extend_from_slice(&x.to_le_bytes());
    }
    v.extend_from_slice(&0xFD00_0000u64.to_le_bytes());
    for x in [4096u32, 1024, 768] {
        v.extend_from_slice(&x.to_le_bytes());
    }
    v.extend_from_slice(&[bpp, 1, 0, 0]);
    for x in [0u32, 8] {
        v.extend_from_slice(&x.to_le_bytes());
    }
    v
}

#[test]
fn the_screen_is_found() {
    let d = framebuffer::init(&screen_info(32));
    assert!(framebuffer::available(&d));
    let mode = Mode { addr: 0xFD00_0000, pitch: 4096, width: 1024, height: 768 };
    assert_eq!(d, Detected::Screen(mode));
    assert_eq!(framebuffer::init(&screen_info(24)), Detected::Unsupported(24));
    assert_eq!(framebuffer::init(&[]), Detected::Missing);
    assert!(!framebuffer::available(&Detected::Missing));
    assert_eq!(Framebuffer::new(Mode { width: 4, height: 4, ..mode }).pixel_address(2, 3), 0xFD00_0000 + 3 * 4096 + 8);
}

#[test]
fn rectangles_are_cut_at_the_edge() {
    let mut fb = Framebuffer::new(Mode { addr: 0, pitch: 64, width: 16, height: 8 });
    framebuffer::fill_rect(&mut fb, 14, 6, 100, 100, 7);
    assert_eq!(fb.get_pixel(14, 6), 7);
    assert_eq!(fb.get_pixel(15, 7), 7);
    assert_eq!(fb.get_pixel(13, 7), 0);
    assert_eq!(fb.get_pixel(15, 5), 0);
}

#[test]
fn the_test_pattern_has_eight_bars() {
    let mut fb = Framebuffer::new(Mode { addr: 0, pitch: 64, width: 17, height: 2 });
    framebuffer::test_pattern(&mut fb);
    assert_eq!(fb.get_pixel(0, 0), 0x00FF_FFFF);
    assert_eq!(fb.get_pixel(2, 1), 0x00FF_FF00);
    assert_eq!(fb.get_pixel(13, 1), 0x0000_00FF);
    assert_eq!(fb.get_pixel(15, 1), 0);
    assert_eq!(framebuffer::COLORS.len(), 8);
}

#[test]
fn glyphs_are_enlarged() {
    let mut fb = Framebuffer::new(Mode { addr: 0, pitch: 256, width: 64, height: 32 });
    let glyph = [0x80, 0, 0, 0, 0, 0, 0, 0x01];
    framebuffer::draw_char(&mut fb, 1, 1, &glyph, 5, 2);
    assert_eq!(fb.get_pixel(1, 1), 5);
    assert_eq!(fb.get_pixel(2, 2), 5);
    assert_eq!(fb.get_pixel(3, 1), 0);
    assert_eq!(fb.get_pixel(15, 15), 5);
    assert_eq!(fb.get_pixel(16, 16), 5);
    let mut fb = Framebuffer::new(Mode { addr: 0, pitch: 256, width: 64, height: 32 });
    framebuffer::draw_str(&mut fb, 0, 0, &vec![glyph, glyph], 9, 1);
    assert_eq!(fb.get_pixel(0, 0), 9);
    assert_eq!(fb.get_pixel(9, 0), 9);
    assert_eq!(fb.get_pixel(16, 7), 9);
    assert_eq!(fb.get_pixel(8, 0), 0);
}

#[test]
fn a_font_is_cut_into_glyphs() {
    let mut data = vec![0x36, 0x04, 0, 2];
    data.extend((0..512).map(|i| (i % 251) as u8));
    let font = PsfFont::parse(&data).unwrap();
    assert_eq!(font.num_glyphs, 256);
    assert_eq!(font.glyph(3).unwrap(), &[6, 7]);
    assert_eq!(font.glyph(255).unwrap(), &data[4 + 510..4 + 512]);
    assert!(PsfFont::parse(&data[..100]).is_none());
    assert!(PsfFont::parse(&[1, 2, 3, 4]).is_none());
}

#[test]
fn the_screen_is_described() {
    let mode = Mode { addr: 0xFD00_0000, pitch: 4096, width: 1024, height: 768 };
    assert_eq!(
        text(framebuffer::detected_report(&Detected::Screen(mode))),
        "[fb] 1024x768 @ 32bpp, pitch=4096, addr=0xfd000000\n"
    );
    assert_eq!(
        text(framebuffer::detected_report(&Detected::Unsupported(24))),
        "[fb] tag encontrado pero bpp=24 no soportado (solo 32)\n"
    );
    assert_eq!(text(framebuffer::detected_report(&Detected::Missing)), framebuffer::NO_TAG);
    assert_eq!(framebuffer::pattern_report(&Detected::Screen(mode)), framebuffer::PATTERN_DRAWN);
    assert_eq!(framebuffer::pattern_report(&Detected::Missing), framebuffer::NO_PATTERN);
}

#[test]
fn the_first_disk_is_found() {
    let report = |port, kind| ahci::PortReport { port, kind, sig: 0 };
    let found = vec![report(1, DeviceKind::Atapi), report(3, DeviceKind::Disk), report(4, DeviceKind::Disk)];
    assert_eq!(ahci::first_disk(&found), Some(3));
    assert_eq!(ahci::first_disk(&vec![report(1, DeviceKind::Atapi)]), None);
}
