//! The `ping` command: an ARP request and an ICMP echo to the gateway, over a
//! card that is ready.
//!
//! Every wait is bounded, so that a card without an answer cannot hang the
//! console.
use vstd::prelude::*;
use crate::bytes;
use crate::fmt;
use crate::io::PortIo;
use crate::mem::PhysMemory;
use crate::net::{self, ArpTable};
use crate::rtl8139::{self, Nic, SendStage, Transmission};

verus! {

pub const INIT: &'static str = "inicializando RTL8139 para ping...\r\n";

pub const NO_CARD: &'static str = "no se pudo inicializar la tarjeta de red\r\n";

pub const ARP_TIMEOUT: &'static str = "timeout esperando ARP reply\r\n";

pub const ECHO_TIMEOUT: &'static str = "timeout esperando ICMP echo reply\r\n";

/// The addresses that QEMU gives out.
pub const OWN_IP: [u8; 4] = [10, 0, 2, 15];

pub const GATEWAY_IP: [u8; 4] = [10, 0, 2, 2];

/// What tells this echo from others.
pub const IDENT: u16 = 0x1234;

pub const SEQ: u16 = 1;

/// Times that the card is asked for an answer.
pub const ATTEMPTS: u32 = 5_000_000;

/// Where a ping is.
#[derive(Clone, Copy, PartialEq, Eq, Debug, Structural)]
pub enum PingStage {
    /// The ARP request goes out.
    AskGateway(Transmission),
    /// This many looks for the ARP reply were in vain.
    AwaitGateway(u32),
    /// The echo request goes out.
    SendEcho(Transmission),
    /// This many looks for the echo reply were in vain.
    AwaitEcho(u32),
    Finished,
}

/// A ping under way. The caller performs the accesses that it asks for and hands
/// over what the reads gave.
pub struct PingSession {
    pub nic: Nic,
    pub stage: PingStage,
}

/// What a step prints, and the access that it leaves to be performed.
pub struct PingStep {
    pub out: Vec<u8>,
    pub ack: Option<PortIo>,
}

// --- what is sent and printed --------------------------------------------------------

/// The ARP request for the gateway.
pub open spec fn arp_frame(mac: Seq<u8>) -> Seq<u8> {
    net::eth_header(net::BROADCAST_MAC@, mac, net::ETHERTYPE_ARP) + net::arp_packet(
        net::ARP_OP_REQUEST,
        mac,
        OWN_IP@,
        seq![0u8, 0, 0, 0, 0, 0],
        GATEWAY_IP@,
    )
}

/// The echo request to the gateway.
pub open spec fn echo_frame(mac: Seq<u8>, gateway_mac: Seq<u8>) -> Seq<u8> {
    net::eth_header(gateway_mac, mac, net::ETHERTYPE_IPV4) + net::ip_header(
        OWN_IP@,
        GATEWAY_IP@,
        60,
    ) + net::echo_packet(IDENT, SEQ)
}

/// An IPv4 address in print.
pub open spec fn ip_text(ip: Seq<u8>) -> Seq<u8> {
    fmt::decimal(ip[0] as nat) + fmt::text("."@) + fmt::decimal(ip[1] as nat) + fmt::text("."@)
        + fmt::decimal(ip[2] as nat) + fmt::text("."@) + fmt::decimal(ip[3] as nat)
}

fn push_ip(out: &mut Vec<u8>, ip: &[u8; 4])
    ensures
        final(out)@ == old(out)@ + ip_text(ip@),
{
    fmt::push_decimal(out, ip[0] as u64);
    fmt::push_text(out, ".");
    fmt::push_decimal(out, ip[1] as u64);
    fmt::push_text(out, ".");
    fmt::push_decimal(out, ip[2] as u64);
    fmt::push_text(out, ".");
    fmt::push_decimal(out, ip[3] as u64);
    assert(out@ =~= old(out)@ + ip_text(ip@));
}

/// What is printed as the ARP request goes out.
pub open spec fn asking_text() -> Seq<u8> {
    fmt::text("ARP request para "@) + ip_text(GATEWAY_IP@) + fmt::text("...\r\n"@)
}

/// What is printed when the gateway answered, and the echo request goes out.
pub open spec fn found_text(gateway_mac: Seq<u8>) -> Seq<u8> {
    fmt::text("ARP reply: "@) + ip_text(GATEWAY_IP@) + fmt::text(" esta en "@) + rtl8139::mac_text(
        gateway_mac,
    ) + fmt::text("\r\nenviando ICMP echo request (id="@) + fmt::decimal(IDENT as nat) + fmt::text(
        ", seq="@,
    ) + fmt::decimal(SEQ as nat) + fmt::text(")...\r\n"@)
}

/// What is printed for the echo reply.
pub open spec fn pong_text(src_ip: Seq<u8>) -> Seq<u8> {
    fmt::text("pong de "@) + ip_text(src_ip) + fmt::text(" (id="@) + fmt::decimal(IDENT as nat)
        + fmt::text(", seq="@) + fmt::decimal(SEQ as nat) + fmt::text(") — round-trip OK\r\n"@)
}

/// What is printed when a frame was not sent.
pub open spec fn unsent_text(what: &'static str) -> Seq<u8> {
    fmt::text(what@) + fmt::text(rtl8139::ERR_TX_TIMEOUT@) + fmt::text("\r\n"@)
}

pub const ARP_UNSENT: &'static str = "fallo al enviar ARP request: ";

pub const ECHO_UNSENT: &'static str = "fallo al enviar ping: ";

// --- steps -------------------------------------------------------------------------

/// Whether a frame is the ARP reply of the gateway.
pub open spec fn from_gateway(p: Seq<u8>) -> bool {
    net::is_arp_reply(p) && p.subrange(28, 32) == GATEWAY_IP@
}

/// Whether a frame is the reply to this echo.
pub open spec fn is_pong(p: Seq<u8>) -> bool {
    let echo = 14 + net::ip_header_len(p);
    &&& net::is_echo_reply(p)
    &&& bytes::be16(p, echo + 4) == IDENT
    &&& bytes::be16(p, echo + 6) == SEQ
}

/// What a step does: from session `a` and memory `m`, when the access that it
/// asked for gave `value`. `learned` is the address of the gateway, once known.
pub open spec fn stepped(
    a: PingSession,
    m: Map<u64, Seq<u64>>,
    value: u32,
    b: PingSession,
    m2: Map<u64, Seq<u64>>,
    out: Seq<u8>,
    ack: Option<PortIo>,
    learned: Option<Seq<u8>>,
) -> bool {
    let cmd = (value % 0x100) as u8;
    let nic1 = rtl8139::nic_after_receive(a.nic, m, cmd);
    let packet = rtl8139::waiting_packet(a.nic, m, cmd);
    let noise = rtl8139::poll_text(a.nic, m, cmd);
    let taken = if packet is Some {
        Some(rtl8139::acknowledgement(a.nic.io_base, nic1.rx_cur as int))
    } else {
        None
    };
    match a.stage {
        PingStage::AskGateway(t) => {
            &&& b.nic == a.nic && m2 == m && ack is None && learned is None
            &&& match rtl8139::send_next(t.stage, value) {
                SendStage::Sent => b.stage == PingStage::AwaitGateway(0) && out == Seq::<
                    u8,
                >::empty(),
                SendStage::TimedOut => b.stage == PingStage::Finished && out == unsent_text(
                    ARP_UNSENT,
                ),
                stage => b.stage == PingStage::AskGateway(Transmission { stage, ..t }) && out
                    == Seq::<u8>::empty(),
            }
        },
        PingStage::AwaitGateway(n) => {
            &&& ack == taken
            &&& if packet is Some && from_gateway(packet->0) {
                let mac = packet->0.subrange(22, 28);
                let frame = echo_frame(a.nic.mac@, mac);
                &&& learned == Some(mac)
                &&& b.nic == rtl8139::nic_after_send(nic1)
                &&& m2 == rtl8139::mem_after_send(m, nic1, frame)
                &&& b.stage == PingStage::SendEcho(rtl8139::transmission_of(nic1, frame))
                &&& out == noise + found_text(mac)
            } else {
                &&& learned is None && b.nic == nic1 && m2 == m
                &&& if n + 1 >= ATTEMPTS {
                    b.stage == PingStage::Finished && out == noise + fmt::text(ARP_TIMEOUT@)
                } else {
                    b.stage == PingStage::AwaitGateway((n + 1) as u32) && out == noise
                }
            }
        },
        PingStage::SendEcho(t) => {
            &&& b.nic == a.nic && m2 == m && ack is None && learned is None
            &&& match rtl8139::send_next(t.stage, value) {
                SendStage::Sent => b.stage == PingStage::AwaitEcho(0) && out == Seq::<u8>::empty(),
                SendStage::TimedOut => b.stage == PingStage::Finished && out == unsent_text(
                    ECHO_UNSENT,
                ),
                stage => b.stage == PingStage::SendEcho(Transmission { stage, ..t }) && out
                    == Seq::<u8>::empty(),
            }
        },
        PingStage::AwaitEcho(n) => {
            &&& ack == taken && learned is None && b.nic == nic1 && m2 == m
            &&& if packet is Some && is_pong(packet->0) {
                b.stage == PingStage::Finished && out == noise + pong_text(
                    packet->0.subrange(26, 30),
                )
            } else if n + 1 >= ATTEMPTS {
                b.stage == PingStage::Finished && out == noise + fmt::text(ECHO_TIMEOUT@)
            } else {
                b.stage == PingStage::AwaitEcho((n + 1) as u32) && out == noise
            }
        },
        PingStage::Finished => {
            &&& b.nic == a.nic && b.stage == a.stage && m2 == m
            &&& out == Seq::<u8>::empty() && ack is None && learned is None
        },
    }
}

/// The most accesses that a ping still asks for.
pub open spec fn ping_left(stage: PingStage) -> int {
    let echo = rtl8139::PATIENCE + 1 + ATTEMPTS;
    match stage {
        PingStage::AskGateway(t) => rtl8139::send_left(t.stage) + ATTEMPTS + echo,
        PingStage::AwaitGateway(n) => ATTEMPTS - n + echo,
        PingStage::SendEcho(t) => rtl8139::send_left(t.stage) + ATTEMPTS,
        PingStage::AwaitEcho(n) => ATTEMPTS - n,
        PingStage::Finished => 0,
    }
}

fn unsent(what: &'static str) -> (r: Vec<u8>)
    ensures
        r@ == unsent_text(what),
{
    let mut out: Vec<u8> = Vec::new();
    fmt::push_text(&mut out, what);
    fmt::push_text(&mut out, rtl8139::ERR_TX_TIMEOUT);
    fmt::push_text(&mut out, "\r\n");
    assert(out@ =~= unsent_text(what));
    out
}

fn found(gateway_mac: &[u8; 6]) -> (r: Vec<u8>)
    ensures
        r@ == found_text(gateway_mac@),
{
    let mut out: Vec<u8> = Vec::new();
    fmt::push_text(&mut out, "ARP reply: ");
    push_ip(&mut out, &GATEWAY_IP);
    fmt::push_text(&mut out, " esta en ");
    rtl8139::push_mac(&mut out, gateway_mac);
    fmt::push_text(&mut out, "\r\nenviando ICMP echo request (id=");
    fmt::push_decimal(&mut out, IDENT as u64);
    fmt::push_text(&mut out, ", seq=");
    fmt::push_decimal(&mut out, SEQ as u64);
    fmt::push_text(&mut out, ")...\r\n");
    assert(out@ =~= found_text(gateway_mac@));
    out
}

fn pong(src_ip: &[u8; 4]) -> (r: Vec<u8>)
    ensures
        r@ == pong_text(src_ip@),
{
    let mut out: Vec<u8> = Vec::new();
    fmt::push_text(&mut out, "pong de ");
    push_ip(&mut out, src_ip);
    fmt::push_text(&mut out, " (id=");
    fmt::push_decimal(&mut out, IDENT as u64);
    fmt::push_text(&mut out, ", seq=");
    fmt::push_decimal(&mut out, SEQ as u64);
    fmt::push_text(&mut out, ") — round-trip OK\r\n");
    assert(out@ =~= pong_text(src_ip@));
    out
}

/// The sender of the reply to this echo. `None` for every other frame.
fn match_pong(packet: &Vec<u8>) -> (r: Option<[u8; 4]>)
    ensures
        r is Some <==> is_pong(packet@),
        r matches Some(ip) ==> ip@ == packet@.subrange(26, 30),
{
    match net::parse_icmp_echo_reply(packet.as_slice()) {
        Some(reply) => if reply.id == IDENT && reply.seq == SEQ {
            Some(reply.src_ip)
        } else {
            None
        },
        None => None,
    }
}

/// The address of the gateway, out of its ARP reply. `None` for every other
/// frame.
fn match_gateway(packet: &Vec<u8>) -> (r: Option<[u8; 6]>)
    ensures
        r is Some <==> from_gateway(packet@),
        r matches Some(mac) ==> mac@ == packet@.subrange(22, 28),
{
    match net::parse_arp_reply(packet.as_slice()) {
        Some(reply) => {
            let ip = reply.sender_ip;
            let same = ip[0] == GATEWAY_IP[0] && ip[1] == GATEWAY_IP[1] && ip[2] == GATEWAY_IP[2]
                && ip[3] == GATEWAY_IP[3];
            if same {
                assert(ip@ =~= GATEWAY_IP@);
                Some(reply.sender_mac)
            } else {
                None
            }
        },
        None => None,
    }
}

impl PingSession {
    pub open spec fn wf(&self, m: Map<u64, Seq<u64>>) -> bool {
        &&& self.nic.wf(m)
        &&& match self.stage {
            PingStage::AskGateway(t) => t.wf() && !t.over(),
            PingStage::SendEcho(t) => t.wf() && !t.over(),
            PingStage::AwaitGateway(n) => n < ATTEMPTS,
            PingStage::AwaitEcho(n) => n < ATTEMPTS,
            PingStage::Finished => true,
        }
    }

    /// Starts a ping: puts the ARP request for the gateway into a buffer. Gives
    /// what to print.
    pub fn start(nic: Nic, mem: &mut PhysMemory) -> (r: (Self, Vec<u8>))
        requires
            old(mem).wf(),
            nic.wf(old(mem)@),
        ensures
            final(mem).wf(),
            r.0.wf(final(mem)@),
            r.0.nic == rtl8139::nic_after_send(nic),
            r.0.stage == PingStage::AskGateway(
                rtl8139::transmission_of(nic, arp_frame(nic.mac@)),
            ),
            final(mem)@ == rtl8139::mem_after_send(old(mem)@, nic, arp_frame(nic.mac@)),
            r.1@ == asking_text(),
    {
        let mut out: Vec<u8> = Vec::new();
        fmt::push_text(&mut out, "ARP request para ");
        push_ip(&mut out, &GATEWAY_IP);
        fmt::push_text(&mut out, "...\r\n");
        assert(out@ =~= asking_text());
        let frame = net::build_arp_request(nic.mac, OWN_IP, GATEWAY_IP);
        let mut nic = nic;
        let stage = match rtl8139::send(&mut nic, mem, frame.as_slice()) {
            Ok(t) => PingStage::AskGateway(t),
            Err(_) => PingStage::Finished,
        };
        (PingSession { nic, stage }, out)
    }

    /// The next access. `None` once the ping is over.
    pub fn request(&self) -> (r: Option<PortIo>)
        ensures
            r == match self.stage {
                PingStage::AskGateway(t) => match t.stage {
                    SendStage::Start(len) => Some(PortIo::Write32(t.register, len)),
                    SendStage::Wait(_) => Some(PortIo::Read32(t.register)),
                    _ => None,
                },
                PingStage::SendEcho(t) => match t.stage {
                    SendStage::Start(len) => Some(PortIo::Write32(t.register, len)),
                    SendStage::Wait(_) => Some(PortIo::Read32(t.register)),
                    _ => None,
                },
                PingStage::Finished => None,
                _ => Some(PortIo::Read8(self.nic.io_base.wrapping_add(rtl8139::REG_CMD))),
            },
    {
        match self.stage {
            PingStage::AskGateway(t) => t.request(),
            PingStage::SendEcho(t) => t.request(),
            PingStage::Finished => None,
            PingStage::AwaitGateway(_) => Some(
                PortIo::Read8(self.nic.io_base.wrapping_add(rtl8139::REG_CMD)),
            ),
            PingStage::AwaitEcho(_) => Some(
                PortIo::Read8(self.nic.io_base.wrapping_add(rtl8139::REG_CMD)),
            ),
        }
    }

    /// Takes what the access gave; `value` does not matter after a write. The
    /// gateway goes into the table of neighbours when it answers.
    pub fn supply(&mut self, mem: &mut PhysMemory, arp: &mut ArpTable, value: u32) -> (r: PingStep)
        requires
            old(mem).wf(),
            old(arp).wf(),
            old(self).wf(old(mem)@),
            old(self).stage != PingStage::Finished,
        ensures
            final(mem).wf(),
            final(arp).wf(),
            final(self).wf(final(mem)@),
            exists|learned: Option<Seq<u8>>|
                {
                    &&& #[trigger] stepped(
                        *old(self),
                        old(mem)@,
                        value,
                        *final(self),
                        final(mem)@,
                        r.out@,
                        r.ack,
                        learned,
                    )
                    &&& final(arp)@ == if learned is Some && (old(arp)@.contains_key(GATEWAY_IP@)
                        || old(arp).has_room()) {
                        old(arp)@.insert(GATEWAY_IP@, learned->0)
                    } else {
                        old(arp)@
                    }
                },
            ping_left(final(self).stage) < ping_left(old(self).stage),
    {
        let cmd = (value % 0x100) as u8;
        let nothing: Vec<u8> = Vec::new();
        assert(nothing@ =~= Seq::<u8>::empty());
        match self.stage {
            PingStage::AskGateway(t) => {
                let mut t = t;
                t.supply(value);
                let mut out = nothing;
                self.stage = match t.stage {
                    SendStage::Sent => PingStage::AwaitGateway(0),
                    SendStage::TimedOut => {
                        out = unsent(ARP_UNSENT);
                        PingStage::Finished
                    },
                    _ => PingStage::AskGateway(t),
                };
                let r = PingStep { out, ack: None };
                assert(stepped(
                    *old(self),
                    old(mem)@,
                    value,
                    *self,
                    mem@,
                    r.out@,
                    r.ack,
                    None,
                ));
                r
            },
            PingStage::SendEcho(t) => {
                let mut t = t;
                t.supply(value);
                let mut out = nothing;
                self.stage = match t.stage {
                    SendStage::Sent => PingStage::AwaitEcho(0),
                    SendStage::TimedOut => {
                        out = unsent(ECHO_UNSENT);
                        PingStage::Finished
                    },
                    _ => PingStage::SendEcho(t),
                };
                let r = PingStep { out, ack: None };
                assert(stepped(
                    *old(self),
                    old(mem)@,
                    value,
                    *self,
                    mem@,
                    r.out@,
                    r.ack,
                    None,
                ));
                r
            },
            PingStage::AwaitGateway(n) => {
                let mut out = nothing;
                let (gateway, ack) = match rtl8139::poll_rx(&mut self.nic, mem, cmd, &mut out) {
                    rtl8139::Received::Packet(packet, ack) => (match_gateway(&packet), Some(ack)),
                    _ => (None, None),
                };
                let ghost learned = match gateway {
                    Some(mac) => Some(mac@),
                    None => None,
                };
                match gateway {
                    Some(mac) => {
                        net::arp_insert(arp, GATEWAY_IP, mac);
                        bytes::push_all(&mut out, found(&mac).as_slice());
                        let frame = net::build_ping(
                            self.nic.mac,
                            OWN_IP,
                            mac,
                            GATEWAY_IP,
                            IDENT,
                            SEQ,
                        );
                        self.stage = match rtl8139::send(&mut self.nic, mem, frame.as_slice()) {
                            Ok(t) => PingStage::SendEcho(t),
                            Err(_) => PingStage::Finished,
                        };
                    },
                    None => if n + 1 >= ATTEMPTS {
                        fmt::push_text(&mut out, ARP_TIMEOUT);
                        self.stage = PingStage::Finished;
                    } else {
                        self.stage = PingStage::AwaitGateway(n + 1);
                    },
                }
                let r = PingStep { out, ack };
                assert(stepped(
                    *old(self),
                    old(mem)@,
                    value,
                    *self,
                    mem@,
                    r.out@,
                    r.ack,
                    learned,
                ));
                r
            },
            PingStage::AwaitEcho(n) => {
                let mut out = nothing;
                let (from, ack) = match rtl8139::poll_rx(&mut self.nic, mem, cmd, &mut out) {
                    rtl8139::Received::Packet(packet, ack) => (match_pong(&packet), Some(ack)),
                    _ => (None, None),
                };
                match from {
                    Some(ip) => {
                        bytes::push_all(&mut out, pong(&ip).as_slice());
                        self.stage = PingStage::Finished;
                    },
                    None => if n + 1 >= ATTEMPTS {
                        fmt::push_text(&mut out, ECHO_TIMEOUT);
                        self.stage = PingStage::Finished;
                    } else {
                        self.stage = PingStage::AwaitEcho(n + 1);
                    },
                }
                let r = PingStep { out, ack };
                assert(stepped(
                    *old(self),
                    old(mem)@,
                    value,
                    *self,
                    mem@,
                    r.out@,
                    r.ack,
                    None,
                ));
                r
            },
            PingStage::Finished => PingStep { out: nothing, ack: None },
        }
    }
}

// --- laws --------------------------------------------------------------------------

/// A ping ends: at its start this many accesses are left, every step leaves
/// fewer, and as long as some are left it is not over.
pub proof fn law_ping_is_bounded(nic: Nic, s: PingSession, m: Map<u64, Seq<u64>>)
    requires
        s.wf(m),
    ensures
        ping_left(
            PingStage::AskGateway(rtl8139::transmission_of(nic, arp_frame(nic.mac@))),
        ) == 2 * (rtl8139::PATIENCE + 1 + ATTEMPTS),
        ping_left(s.stage) >= 0,
        ping_left(s.stage) == 0 <==> s.stage == PingStage::Finished,
{
}

/// The ARP reply of the gateway is taken for what it is, and the card's own
/// request is not.
pub proof fn law_gateway_is_recognised(own_mac: [u8; 6], gateway_mac: [u8; 6])
    ensures
        ({
            let reply = net::eth_header(own_mac@, gateway_mac@, net::ETHERTYPE_ARP)
                + net::arp_packet(
                net::ARP_OP_REPLY,
                gateway_mac@,
                GATEWAY_IP@,
                own_mac@,
                OWN_IP@,
            );
            from_gateway(reply) && reply.subrange(22, 28) == gateway_mac@
        }),
        !from_gateway(arp_frame(own_mac@)),
{
    let reply = net::eth_header(own_mac@, gateway_mac@, net::ETHERTYPE_ARP) + net::arp_packet(
        net::ARP_OP_REPLY,
        gateway_mac@,
        GATEWAY_IP@,
        own_mac@,
        OWN_IP@,
    );
    assert(reply.subrange(28, 32) =~= GATEWAY_IP@);
    assert(reply.subrange(22, 28) =~= gateway_mac@);
    assert(reply.subrange(14, 20) =~= seq![0u8, 1, 8, 0, 6, 4]);
    assert(bytes::be16(reply, 12) == net::ETHERTYPE_ARP);
    assert(bytes::be16(reply, 20) == net::ARP_OP_REPLY);
    assert(bytes::be16(arp_frame(own_mac@), 20) == net::ARP_OP_REQUEST);
}

/// The two frames of a ping: a request to everybody for the address 10.0.2.2, and
/// an echo request from 10.0.2.15 to it with number 0x1234 and sequence number 1.
pub proof fn law_frames_ask_and_ping(mac: [u8; 6], gateway_mac: [u8; 6])
    ensures
        net::asks_for(arp_frame(mac@), mac@, seq![10u8, 0, 2, 15], seq![10u8, 0, 2, 2]),
        net::pings(
            echo_frame(mac@, gateway_mac@),
            mac@,
            seq![10u8, 0, 2, 15],
            gateway_mac@,
            seq![10u8, 0, 2, 2],
            0x1234,
            1,
        ),
{
    assert(OWN_IP@ =~= seq![10u8, 0, 2, 15]);
    assert(GATEWAY_IP@ =~= seq![10u8, 0, 2, 2]);
    net::law_request_asks(mac, OWN_IP, GATEWAY_IP);
    net::law_ping_pings(mac, OWN_IP, gateway_mac, GATEWAY_IP, 0x1234, 1);
}

/// A packet is the answer of the gateway if it is an ARP reply whose sender has
/// the address 10.0.2.2, and the answer to the ping if it is an echo reply with
/// its number and sequence number. Nothing else is.
pub proof fn law_answers_are_told_apart(p: Seq<u8>)
    ensures
        from_gateway(p) <==> net::is_arp_reply(p) && p[28] == 10 && p[29] == 0 && p[30] == 2 && p[31]
            == 2,
        ({
            let echo = 14 + 4 * (p[14] % 16);
            is_pong(p) <==> net::is_echo_reply(p) && p[echo + 4] == 0x12 && p[echo + 5] == 0x34
                && p[echo + 6] == 0 && p[echo + 7] == 1
        }),
{
    if p.len() >= 42 {
        let ip = p.subrange(28, 32);
        assert(ip[0] == p[28] && ip[1] == p[29] && ip[2] == p[30] && ip[3] == p[31]);
        if p[28] == 10 && p[29] == 0 && p[30] == 2 && p[31] == 2 {
            assert(ip =~= GATEWAY_IP@);
        }
    }
}

/// Once the gateway has answered, the echo request goes to the address that it
/// answered with; any other packet is passed over, and after 5,000,000 tries the
/// session is over.
pub proof fn law_answer_leads_to_the_ping(
    a: PingSession,
    m: Map<u64, Seq<u64>>,
    value: u32,
    b: PingSession,
    m2: Map<u64, Seq<u64>>,
    out: Seq<u8>,
    ack: Option<PortIo>,
    learned: Option<Seq<u8>>,
    n: u32,
    p: Seq<u8>,
)
    requires
        stepped(a, m, value, b, m2, out, ack, learned),
        rtl8139::waiting_packet(a.nic, m, (value % 0x100) as u8) == Some(p),
    ensures
        a.stage == PingStage::AwaitGateway(n) && from_gateway(p) ==> learned == Some(
            p.subrange(22, 28),
        ) && b.stage is SendEcho && ({
            let frame = echo_frame(a.nic.mac@, p.subrange(22, 28));
            let card = rtl8139::nic_after_receive(a.nic, m, (value % 0x100) as u8);
            m2 == rtl8139::mem_after_send(m, card, frame) && b.stage
                == PingStage::SendEcho(rtl8139::transmission_of(card, frame))
        }),
        a.stage == PingStage::AwaitGateway(n) && !from_gateway(p) ==> learned is None && m2 == m
            && b.stage == if n < 4_999_999 {
            PingStage::AwaitGateway((n + 1) as u32)
        } else {
            PingStage::Finished
        },
        a.stage == PingStage::AwaitEcho(n) && is_pong(p) ==> b.stage == PingStage::Finished && m2
            == m,
        a.stage == PingStage::AwaitEcho(n) && !is_pong(p) ==> m2 == m && b.stage == if n < 4_999_999 {
            PingStage::AwaitEcho((n + 1) as u32)
        } else {
            PingStage::Finished
        },
{
}

} // verus!
