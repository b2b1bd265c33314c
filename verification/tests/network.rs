//! Ethernet, ARP, IPv4 and ICMP, and the ping over a card.
use forge_kernel::io::PortIo;
use forge_kernel::mem::PhysMemory;
use forge_kernel::net::{self, ArpTable};
use forge_kernel::ping::{self, PingSession, PingStage};
use forge_kernel::pmm::{self, FrameBitmap};
use forge_kernel::rtl8139::{self, CardAccess, CardSetup, Nic, SendStage};

const MAC: [u8; 6] = [0x52, 0x54, 0x00, 0x12, 0x34, 0x56];

const GATEWAY_MAC: [u8; 6] = [0x52, 0x55, 0x0A, 0x00, 0x02, 0x02];

fn arp_reply() -> Vec<u8> {
    let mut v: Vec<u8> = Vec::new();
    v.extend_from_slice(&MAC);
    v.extend_from_slice(&GATEWAY_MAC);
    v.extend_from_slice(&[0x08, 0x06, 0, 1, 8, 0, 6, 4, 0, 2]);
    v.extend_from_slice(&GATEWAY_MAC);
    v.extend_from_slice(&ping::GATEWAY_IP);
    v.extend_from_slice(&MAC);
    v.extend_from_slice(&ping::OWN_IP);
    v
}

fn echo_reply(ident: u16, seq: u16) -> Vec<u8> {
    let mut v = net::build_ping(GATEWAY_MAC, ping::GATEWAY_IP, MAC, ping::OWN_IP, ident, seq);
    v[34] = 0;
    v
}

#[test]
fn checksums_are_those_of_the_standard() {
    assert_eq!(net::inet_csum(&[0x00, 0x01, 0xF2, 0x03, 0xF4, 0xF5, 0xF6, 0xF7]), 0x220D);
    assert_eq!(net::inet_csum(&[]), 0xFFFF);
    assert_eq!(net::inet_csum(&[0xAB]), 0x54FF);
}

#[test]
fn an_echo_request_verifies() {
    let f = net::build_ping(MAC, ping::OWN_IP, GATEWAY_MAC, ping::GATEWAY_IP, 0x1234, 1);
    assert_eq!(f.len(), 74);
    assert_eq!(&f[0..6], &GATEWAY_MAC);
    assert_eq!(&f[6..14], &[0x52, 0x54, 0x00, 0x12, 0x34, 0x56, 0x08, 0x00]);
    assert_eq!(&f[14..18], &[0x45, 0, 0, 60]);
    assert_eq!(net::inet_csum(&f[14..34]), 0);
    assert_eq!(net::inet_csum(&f[34..]), 0);
    assert_eq!(&f[38..42], &[0x12, 0x34, 0, 1]);
    assert!(net::parse_icmp_echo_reply(&f).is_none());
}

#[test]
fn echo_replies_are_read() {
    let r = net::parse_icmp_echo_reply(&echo_reply(7, 9)).unwrap();
    assert_eq!((r.src_ip, r.id, r.seq), (ping::GATEWAY_IP, 7, 9));
    assert!(net::parse_icmp_echo_reply(&echo_reply(7, 9)[..41]).is_none());
    let mut short_header = echo_reply(7, 9);
    short_header[14] = 0x44;
    assert!(net::parse_icmp_echo_reply(&short_header).is_none());
    let mut udp = echo_reply(7, 9);
    udp[23] = 17;
    assert!(net::parse_icmp_echo_reply(&udp).is_none());
}

#[test]
fn arp_requests_and_replies() {
    let f = net::build_arp_request(MAC, ping::OWN_IP, ping::GATEWAY_IP);
    assert_eq!(f.len(), 42);
    assert_eq!(&f[0..6], &[0xFF; 6]);
    assert_eq!(&f[20..22], &[0, 1]);
    assert_eq!(&f[38..42], &ping::GATEWAY_IP);
    assert!(net::parse_arp_reply(&f).is_none());
    let r = net::parse_arp_reply(&arp_reply()).unwrap();
    assert_eq!((r.sender_ip, r.sender_mac), (ping::GATEWAY_IP, GATEWAY_MAC));
    assert!(net::parse_arp_reply(&arp_reply()[..41]).is_none());
}

#[test]
fn neighbours_are_remembered_while_there_is_room() {
    let mut t = ArpTable::new();
    for i in 0..8u8 {
        net::arp_insert(&mut t, [10, 0, 0, i], [i; 6]);
    }
    assert_eq!(net::arp_lookup(&t, [10, 0, 0, 7]), Some([7; 6]));
    net::arp_insert(&mut t, [10, 0, 0, 8], [8; 6]);
    assert_eq!(net::arp_lookup(&t, [10, 0, 0, 8]), None);
    net::arp_insert(&mut t, [10, 0, 0, 3], [0xAA; 6]);
    assert_eq!(net::arp_lookup(&t, [10, 0, 0, 3]), Some([0xAA; 6]));
}

// --- ping --------------------------------------------------------------------------

#[test]
fn only_ethernet_replies_for_ipv4_count() {
    assert!(net::parse_arp_reply(&arp_reply()).is_some());
    for i in 14..20 {
        let mut other = arp_reply();
        other[i] += 1;
        assert!(net::parse_arp_reply(&other).is_none());
    }
}

/// Sets a card up on a machine that has one at 0:3.0, with its registers at this
/// base address.
fn set_up(mem: &mut PhysMemory, pmm: &mut FrameBitmap, bar0: u32) -> CardSetup {
    let mut setup = rtl8139::init_full();
    while let Some(access) = setup.request() {
        let value = match access {
            CardAccess::Config(r) => match (r.bus, r.device, r.function, r.offset) {
                (0, 3, 0, 0x00) => 0x8139_10EC,
                (0, 3, 0, 0x08) => 0x0200_0020,
                (0, 3, 0, 0x0C) => 0,
                (0, 3, 0, 0x04) => 0x0290_0103,
                (0, 3, 0, 0x10) => bar0,
                _ => 0xFFFF_FFFF,
            },
            CardAccess::Port(PortIo::Read8(port)) if port < 0xC006 => MAC[port as usize - 0xC000] as u32,
            _ => 0,
        };
        setup.supply(mem, pmm, value);
    }
    setup
}

fn card() -> (Nic, PhysMemory) {
    let mut mem = PhysMemory::new(0, vec![0u64; 32 * 512]);
    let mut pmm = FrameBitmap::new();
    for f in 8..15 {
        pmm::free_frame(&mut pmm, f * 4096);
    }
    (set_up(&mut mem, &mut pmm, 0xC001).card().unwrap(), mem)
}

fn deliver(mem: &mut PhysMemory, s: &PingSession, data: &[u8]) {
    let mut packet = vec![1, 0];
    packet.extend_from_slice(&(data.len() as u16 + 4).to_le_bytes());
    packet.extend_from_slice(data);
    mem.write_bytes(s.nic.rx_buf_phys, s.nic.rx_cur as usize, &packet);
}

fn text(v: Vec<u8>) -> String {
    String::from_utf8(v).unwrap()
}

#[test]
fn a_ping_that_is_answered() {
    let (nic, mut mem) = card();
    let mut arp = ArpTable::new();
    let (mut s, out) = PingSession::start(nic, &mut mem);
    assert_eq!(text(out), "ARP request para 10.0.2.2...\r\n");
    assert_eq!(s.request(), Some(PortIo::Write32(0xC010, 60)));
    s.supply(&mut mem, &mut arp, 0);
    assert_eq!(s.request(), Some(PortIo::Read32(0xC010)));
    s.supply(&mut mem, &mut arp, 0x8000);
    assert_eq!(s.stage, PingStage::AwaitGateway(0));
    assert_eq!(s.request(), Some(PortIo::Read8(0xC037)));
    // Empty, then the reply.
    assert!(s.supply(&mut mem, &mut arp, 0x0D).ack.is_none());
    assert_eq!(s.stage, PingStage::AwaitGateway(1));
    deliver(&mut mem, &s, &arp_reply());
    let step = s.supply(&mut mem, &mut arp, 0x0C);
    assert_eq!(
        text(step.out),
        "ARP reply: 10.0.2.2 esta en 52:55:0a:00:02:02\r\nenviando ICMP echo request (id=4660, seq=1)...\r\n"
    );
    assert_eq!(step.ack, Some(PortIo::Write16(0xC038, 52 - 16)));
    assert_eq!(net::arp_lookup(&arp, ping::GATEWAY_IP), Some(GATEWAY_MAC));
    assert_eq!(s.request(), Some(PortIo::Write32(0xC014, 74)));
    s.supply(&mut mem, &mut arp, 0);
    s.supply(&mut mem, &mut arp, 0x8000);
    assert_eq!(s.stage, PingStage::AwaitEcho(0));
    // The reply to another echo, then ours.
    deliver(&mut mem, &s, &echo_reply(1, 1));
    assert!(s.supply(&mut mem, &mut arp, 0x0C).out.is_empty());
    deliver(&mut mem, &s, &echo_reply(ping::IDENT, ping::SEQ));
    let step = s.supply(&mut mem, &mut arp, 0x0C);
    assert_eq!(text(step.out), "pong de 10.0.2.2 (id=4660, seq=1) — round-trip OK\r\n");
    assert_eq!(s.stage, PingStage::Finished);
    assert_eq!(s.request(), None);
}

#[test]
fn a_ping_without_an_answer_ends() {
    let (nic, mut mem) = card();
    let mut arp = ArpTable::new();
    let (mut s, _) = PingSession::start(nic, &mut mem);
    s.supply(&mut mem, &mut arp, 0);
    s.supply(&mut mem, &mut arp, 0x8000);
    let mut last = Vec::new();
    let mut looks: u32 = 0;
    while s.request().is_some() {
        last = s.supply(&mut mem, &mut arp, 0x01).out;
        looks += 1;
    }
    assert_eq!(looks, ping::ATTEMPTS);
    assert_eq!(text(last), "timeout esperando ARP reply\r\n");
}

#[test]
fn an_echo_without_an_answer_ends() {
    let (nic, mut mem) = card();
    let mut arp = ArpTable::new();
    let mut s = PingSession { nic, stage: PingStage::AwaitEcho(ping::ATTEMPTS - 1) };
    let step = s.supply(&mut mem, &mut arp, 0x01);
    assert_eq!(text(step.out), "timeout esperando ICMP echo reply\r\n");
    assert_eq!(s.stage, PingStage::Finished);
}

#[test]
fn a_ping_that_cannot_be_sent_says_so() {
    let (nic, mut mem) = card();
    let mut arp = ArpTable::new();
    let (mut s, _) = PingSession::start(nic, &mut mem);
    if let PingStage::AskGateway(t) = s.stage {
        s.stage = PingStage::AskGateway(rtl8139::Transmission { stage: SendStage::Wait(1), ..t });
        let step = s.supply(&mut mem, &mut arp, 0);
        assert_eq!(text(step.out), "fallo al enviar ARP request: timeout esperando TxStatOK\r\n");
        s.stage = PingStage::SendEcho(rtl8139::Transmission { stage: SendStage::Wait(1), ..t });
        let step = s.supply(&mut mem, &mut arp, 0);
        assert_eq!(text(step.out), "fallo al enviar ping: timeout esperando TxStatOK\r\n");
    } else {
        panic!("not sending");
    }
}
