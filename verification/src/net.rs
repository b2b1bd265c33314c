//! A minimal network stack: ARP, IPv4 and ICMP echo.
use vstd::prelude::*;
use crate::bytes;

verus! {

pub type Mac = [u8; 6];

pub type Ipv4 = [u8; 4];

pub const ETHERTYPE_ARP: u16 = 0x0806;

pub const ETHERTYPE_IPV4: u16 = 0x0800;

pub const ARP_HTYPE_ETHERNET: u16 = 1;

pub const ARP_PTYPE_IPV4: u16 = 0x0800;

pub const ARP_OP_REQUEST: u16 = 1;

pub const ARP_OP_REPLY: u16 = 2;

pub const IP_PROTO_ICMP: u8 = 1;

pub const ICMP_TYPE_ECHO_REQUEST: u8 = 8;

pub const ICMP_TYPE_ECHO_REPLY: u8 = 0;

pub const BROADCAST_MAC: Mac = [0xFF, 0xFF, 0xFF, 0xFF, 0xFF, 0xFF];

/// Text that fills an echo request: "forgeos-ping-0123456789abcdefghi".
pub const PING_PAYLOAD: [u8; 32] = [
    0x66, 0x6F, 0x72, 0x67, 0x65, 0x6F, 0x73, 0x2D,
    0x70, 0x69, 0x6E, 0x67, 0x2D, 0x30, 0x31, 0x32,
    0x33, 0x34, 0x35, 0x36, 0x37, 0x38, 0x39, 0x61,
    0x62, 0x63, 0x64, 0x65, 0x66, 0x67, 0x68, 0x69,
];

// --- checksum ----------------------------------------------------------------

/// Sum of the 16-bit words of `s`, most significant byte first. An odd byte at
/// the end is the high half of a word.
pub open spec fn word_sum(s: Seq<u8>) -> nat
    decreases s.len(),
{
    if s.len() == 0 {
        0
    } else if s.len() == 1 {
        0x100 * s[0] as nat
    } else {
        (0x100 * s[0] + s[1]) as nat + word_sum(s.skip(2))
    }
}

/// A sum in ones' complement of 16 bits: carries are added back in.
pub open spec fn folded(sum: nat) -> nat {
    if sum == 0 {
        0
    } else {
        ((sum - 1) % 0xFFFF + 1) as nat
    }
}

/// The internet checksum: the complement of the ones' complement sum.
pub open spec fn checksum(s: Seq<u8>) -> nat {
    (0xFFFF - folded(word_sum(s))) as nat
}

proof fn lemma_word_sum_bound(s: Seq<u8>)
    ensures
        word_sum(s) <= 0xFFFF * ((s.len() + 1) / 2),
    decreases s.len(),
{
    if s.len() >= 2 {
        lemma_word_sum_bound(s.skip(2));
        assert((s.len() + 1) / 2 == (s.skip(2).len() + 1) / 2 + 1);
    }
}

/// The internet checksum of `data` (RFC 1071).
pub fn inet_csum(data: &[u8]) -> (r: u16)
    requires
        data@.len() <= 131_074,
    ensures
        r == checksum(data@),
{
    let mut sum: u32 = 0;
    let mut i: usize = 0;
    proof {
        lemma_word_sum_bound(data@);
        assert(data@.skip(0) =~= data@);
        assert((data@.len() + 1) / 2 <= 65_537);
    }
    let len = data.len();
    while len - i >= 2
        invariant
            i <= len,
            len == data@.len(),
            word_sum(data@) <= u32::MAX,
            sum + word_sum(data@.skip(i as int)) == word_sum(data@),
        decreases len - i,
    {
        let ghost rest = data@.skip(i as int);
        assert(rest.skip(2) =~= data@.skip(i + 2));
        sum = sum + bytes::be16_at(data, i) as u32;
        i += 2;
    }
    let ghost rest = data@.skip(i as int);
    if i < len {
        sum = sum + 0x100 * (data[i] as u32);
    }
    assert(sum == word_sum(data@));
    let ghost total = sum as nat;
    while sum > 0xFFFF
        invariant
            folded(sum as nat) == folded(total),
        decreases sum,
    {
        proof {
            lemma_fold(sum as nat);
        }
        sum = sum % 0x1_0000 + sum / 0x1_0000;
    }
    proof {
        if sum > 0 {
            assert((sum - 1) % 0xFFFF == sum - 1);
        }
    }
    0xFFFF - sum as u16
}

/// Adding the carry back in keeps the folded sum.
proof fn lemma_fold(sum: nat)
    requires
        sum > 0xFFFF,
    ensures
        folded(sum % 0x1_0000 + sum / 0x1_0000) == folded(sum),
        0 < sum % 0x1_0000 + sum / 0x1_0000 < sum,
{
    let hi = sum / 0x1_0000;
    let lo = sum % 0x1_0000;
    assert(sum - 1 == (lo + hi - 1) + 0xFFFF * hi);
    assert((sum - 1) % 0xFFFF == (lo + hi - 1) % 0xFFFF) by {
        vstd::arithmetic::div_mod::lemma_mod_multiples_vanish(hi as int, lo + hi - 1, 0xFFFF);
    }
}

/// Storing the checksum of data in which its place is zero makes the checksum
/// of the whole zero: that is how a receiver checks it.
pub proof fn law_stored_checksum_verifies(s: Seq<u8>, k: int)
    requires
        0 <= k,
        k % 2 == 0,
        k + 1 < s.len(),
        s[k] == 0,
        s[k + 1] == 0,
    ensures
        checksum(with_be16(s, k, checksum(s) as u16)) == 0,
{
    let c = checksum(s) as u16;
    lemma_folded_range(word_sum(s));
    lemma_sum_update(s, k, c);
    let total = (word_sum(s) + c) as nat;
    // The folded sum and its complement add up to 0xFFFF.
    assert(folded(total) == 0xFFFF) by {
        let sum = word_sum(s);
        if sum > 0 {
            let q = (sum - 1) / 0xFFFF;
            assert(sum - 1 == 0xFFFF * q + (sum - 1) % 0xFFFF);
            assert(total == 0xFFFF * q + 0xFFFF);
            vstd::arithmetic::div_mod::lemma_mod_multiples_vanish(q, 0xFFFE, 0xFFFF);
            assert((total - 1) % 0xFFFF == 0xFFFE);
        }
    }
}

proof fn lemma_folded_range(sum: nat)
    ensures
        folded(sum) <= 0xFFFF,
{
}

/// `s` with a 16-bit value at `k`.
pub open spec fn with_be16(s: Seq<u8>, k: int, v: u16) -> Seq<u8> {
    s.update(k, (v / 0x100) as u8).update(k + 1, (v % 0x100) as u8)
}

proof fn lemma_sum_update(s: Seq<u8>, k: int, v: u16)
    requires
        0 <= k,
        k % 2 == 0,
        k + 1 < s.len(),
        s[k] == 0,
        s[k + 1] == 0,
    ensures
        word_sum(with_be16(s, k, v)) == word_sum(s) + v,
    decreases k,
{
    let t = with_be16(s, k, v);
    if k == 0 {
        assert(t.skip(2) =~= s.skip(2));
    } else {
        assert(t.skip(2) =~= with_be16(s.skip(2), k - 2, v));
        lemma_sum_update(s.skip(2), k - 2, v);
    }
}

fn put_be16(buf: &mut Vec<u8>, k: usize, v: u16)
    requires
        k + 1 < old(buf).len(),
    ensures
        final(buf)@ == with_be16(old(buf)@, k as int, v),
{
    buf.set(k, (v / 0x100) as u8);
    buf.set(k + 1, (v % 0x100) as u8);
}

// --- Ethernet ------------------------------------------------------------------

/// Destination, source and type of a frame.
pub open spec fn eth_header(dst: Seq<u8>, src: Seq<u8>, ethertype: u16) -> Seq<u8> {
    dst + src + bytes::be16_bytes(ethertype)
}

fn write_eth_header(buf: &mut Vec<u8>, dst: &Mac, src: &Mac, ethertype: u16)
    ensures
        final(buf)@ == old(buf)@ + eth_header(dst@, src@, ethertype),
{
    bytes::push_all(buf, dst.as_slice());
    bytes::push_all(buf, src.as_slice());
    bytes::push_be16(buf, ethertype);
    assert(buf@ =~= old(buf)@ + eth_header(dst@, src@, ethertype));
}

// --- ARP -------------------------------------------------------------------------

pub const ARP_TABLE_SIZE: usize = 8;

/// Known addresses of neighbours, at most [`ARP_TABLE_SIZE`]. The view maps IP
/// addresses to MAC addresses.
pub struct ArpTable {
    entries: Vec<(Ipv4, Mac)>,
}

impl View for ArpTable {
    type V = Map<Seq<u8>, Seq<u8>>;

    closed spec fn view(&self) -> Map<Seq<u8>, Seq<u8>> {
        Map::new(
            |ip: Seq<u8>| exists|i: int| self.is_at(ip, i),
            |ip: Seq<u8>| self.entries@[choose|i: int| self.is_at(ip, i)].1@,
        )
    }
}

fn same4(a: &Ipv4, b: &Ipv4) -> (r: bool)
    ensures
        r == (a@ == b@),
{
    let r = a[0] == b[0] && a[1] == b[1] && a[2] == b[2] && a[3] == b[3];
    proof {
        if r {
            assert(a@ =~= b@);
        }
    }
    r
}

impl ArpTable {
    spec fn is_at(&self, ip: Seq<u8>, i: int) -> bool {
        0 <= i < self.entries@.len() && self.entries@[i].0@ == ip
    }

    pub closed spec fn wf(&self) -> bool {
        &&& self.entries@.len() <= ARP_TABLE_SIZE
        &&& forall|i: int, j: int|
            0 <= i < j < self.entries@.len() ==> (#[trigger] self.entries@[i]).0@ != (
            #[trigger] self.entries@[j]).0@
    }

    /// Whether there is room for another address.
    pub open spec fn has_room(&self) -> bool {
        self@.dom().len() < ARP_TABLE_SIZE
    }

    proof fn lemma_at(&self, ip: Seq<u8>, i: int)
        requires
            self.wf(),
            self.is_at(ip, i),
        ensures
            self@.contains_key(ip),
            self@[ip] == self.entries@[i].1@,
    {
        let k = choose|k: int| self.is_at(ip, k);
        assert(self.is_at(ip, k));
        assert(k == i);
    }

    pub fn new() -> (r: Self)
        ensures
            r.wf(),
            r@ == Map::<Seq<u8>, Seq<u8>>::empty(),
    {
        let r = ArpTable { entries: Vec::new() };
        assert(r@ =~= Map::<Seq<u8>, Seq<u8>>::empty());
        r
    }

    /// Every entry is one known address.
    proof fn lemma_room(&self)
        requires
            self.wf(),
        ensures
            self@.dom().finite(),
            self@.dom().len() == self.entries@.len(),
    {
        self.lemma_count(self.entries@.len() as int);
        let all = Set::new(|ip: Seq<u8>| exists|i: int| 0 <= i < self.entries@.len() && self.is_at(ip, i));
        assert(self@.dom() =~= all);
    }

    proof fn lemma_count(&self, n: int)
        requires
            self.wf(),
            0 <= n <= self.entries@.len(),
        ensures
            Set::new(|ip: Seq<u8>| exists|i: int| 0 <= i < n && self.is_at(ip, i)).finite(),
            Set::new(|ip: Seq<u8>| exists|i: int| 0 <= i < n && self.is_at(ip, i)).len() == n,
        decreases n,
    {
        let s = Set::new(|ip: Seq<u8>| exists|i: int| 0 <= i < n && self.is_at(ip, i));
        if n == 0 {
            assert(s =~= Set::<Seq<u8>>::empty());
        } else {
            self.lemma_count(n - 1);
            let t = Set::new(|ip: Seq<u8>| exists|i: int| 0 <= i < n - 1 && self.is_at(ip, i));
            let last = self.entries@[n - 1].0@;
            assert(self.is_at(last, n - 1));
            assert(s =~= t.insert(last));
            assert(!t.contains(last));
        }
    }
}

/// Notes the address of a neighbour. A known IP address gets the new MAC
/// address; a new one is added if there is room, and dropped if not.
pub fn arp_insert(table: &mut ArpTable, ip: Ipv4, mac: Mac)
    requires
        old(table).wf(),
    ensures
        final(table).wf(),
        final(table)@ == if old(table)@.contains_key(ip@) || old(table).has_room() {
            old(table)@.insert(ip@, mac@)
        } else {
            old(table)@
        },
{
    let mut i: usize = 0;
    while i < table.entries.len()
        invariant
            i <= table.entries@.len(),
            table.wf(),
            *table == *old(table),
            forall|j: int| 0 <= j < i ==> (#[trigger] table.entries@[j]).0@ != ip@,
        decreases table.entries@.len() - i,
    {
        if same4(&table.entries[i].0, &ip) {
            table.entries.set(i, (ip, mac));
            proof {
                let t0 = *old(table);
                assert forall|n: Seq<u8>, k: int| table.is_at(n, k) == t0.is_at(n, k) by {}
                t0.lemma_at(ip@, i as int);
                assert forall|n: Seq<u8>| #[trigger] table@.dom().contains(n)
                    == t0@.dom().contains(n) && (t0@.dom().contains(n) ==> table@[n] == if n == ip@ {
                    mac@
                } else {
                    t0@[n]
                }) by {
                    if t0@.dom().contains(n) {
                        let k = choose|k: int| t0.is_at(n, k);
                        t0.lemma_at(n, k);
                        assert(table.is_at(n, k));
                        table.lemma_at(n, k);
                    }
                    if table@.dom().contains(n) {
                        let k = choose|k: int| table.is_at(n, k);
                        assert(t0.is_at(n, k));
                    }
                }
                assert(table@ =~= t0@.insert(ip@, mac@));
            }
            return ;
        }
        i += 1;
    }
    assert(!table@.contains_key(ip@));
    proof {
        table.lemma_room();
    }
    if table.entries.len() < ARP_TABLE_SIZE {
        table.entries.push((ip, mac));
        proof {
            let t0 = *old(table);
            let last = t0.entries@.len() as int;
            assert(table.is_at(ip@, last));
            table.lemma_at(ip@, last);
            assert forall|n: Seq<u8>| n != ip@ implies #[trigger] table@.dom().contains(n)
                == t0@.dom().contains(n) && (t0@.dom().contains(n) ==> table@[n] == t0@[n]) by {
                if t0@.dom().contains(n) {
                    let k = choose|k: int| t0.is_at(n, k);
                    t0.lemma_at(n, k);
                    assert(table.is_at(n, k));
                    table.lemma_at(n, k);
                }
                if table@.dom().contains(n) {
                    let k = choose|k: int| table.is_at(n, k);
                    assert(t0.is_at(n, k));
                }
            }
            assert(table@ =~= t0@.insert(ip@, mac@));
        }
    }
}

/// The MAC address of a neighbour, if it is known.
pub fn arp_lookup(table: &ArpTable, ip: Ipv4) -> (r: Option<Mac>)
    requires
        table.wf(),
    ensures
        r is Some <==> table@.contains_key(ip@),
        r matches Some(mac) ==> mac@ == table@[ip@],
{
    let mut i: usize = 0;
    while i < table.entries.len()
        invariant
            i <= table.entries@.len(),
            table.wf(),
            forall|j: int| 0 <= j < i ==> (#[trigger] table.entries@[j]).0@ != ip@,
        decreases table.entries@.len() - i,
    {
        if same4(&table.entries[i].0, &ip) {
            proof {
                table.lemma_at(ip@, i as int);
            }
            return Some(table.entries[i].1);
        }
        i += 1;
    }
    None
}

/// An ARP packet: kinds and sizes of the addresses, operation, sender, target.
pub open spec fn arp_packet(
    op: u16,
    sender_mac: Seq<u8>,
    sender_ip: Seq<u8>,
    target_mac: Seq<u8>,
    target_ip: Seq<u8>,
) -> Seq<u8> {
    bytes::be16_bytes(ARP_HTYPE_ETHERNET) + bytes::be16_bytes(ARP_PTYPE_IPV4) + seq![6u8, 4u8]
        + bytes::be16_bytes(op) + sender_mac + sender_ip + target_mac + target_ip
}

/// The frame that asks everyone for the MAC address of `target_ip`.
pub fn build_arp_request(src_mac: Mac, src_ip: Ipv4, target_ip: Ipv4) -> (r: Vec<u8>)
    ensures
        r@ == eth_header(BROADCAST_MAC@, src_mac@, ETHERTYPE_ARP) + arp_packet(
            ARP_OP_REQUEST,
            src_mac@,
            src_ip@,
            seq![0u8, 0, 0, 0, 0, 0],
            target_ip@,
        ),
        r@.len() == 42,
        asks_for(r@, src_mac@, src_ip@, target_ip@),
{
    let mut frame: Vec<u8> = Vec::new();
    let broadcast = BROADCAST_MAC;
    write_eth_header(&mut frame, &broadcast, &src_mac, ETHERTYPE_ARP);
    bytes::push_be16(&mut frame, ARP_HTYPE_ETHERNET);
    bytes::push_be16(&mut frame, ARP_PTYPE_IPV4);
    frame.push(6);
    frame.push(4);
    bytes::push_be16(&mut frame, ARP_OP_REQUEST);
    bytes::push_all(&mut frame, src_mac.as_slice());
    bytes::push_all(&mut frame, src_ip.as_slice());
    let unknown: Mac = [0, 0, 0, 0, 0, 0];
    bytes::push_all(&mut frame, unknown.as_slice());
    bytes::push_all(&mut frame, target_ip.as_slice());
    assert(unknown@ =~= seq![0u8, 0, 0, 0, 0, 0]);
    assert(frame@ =~= eth_header(BROADCAST_MAC@, src_mac@, ETHERTYPE_ARP) + arp_packet(
        ARP_OP_REQUEST,
        src_mac@,
        src_ip@,
        seq![0u8, 0, 0, 0, 0, 0],
        target_ip@,
    ));
    proof {
        law_request_asks(src_mac, src_ip, target_ip);
    }
    frame
}

pub struct ArpReply {
    pub sender_ip: Ipv4,
    pub sender_mac: Mac,
}

/// Whether a frame is an ARP reply for IPv4 over Ethernet: hardware type 1,
/// protocol type IPv4, addresses of 6 and 4 bytes.
pub open spec fn is_arp_reply(p: Seq<u8>) -> bool {
    &&& p.len() >= 42
    &&& bytes::be16(p, 12) == ETHERTYPE_ARP
    &&& p.subrange(14, 20) == seq![0u8, 1, 8, 0, 6, 4]
    &&& bytes::be16(p, 20) == ARP_OP_REPLY
}

fn mac_at(packet: &[u8], off: usize) -> (r: Mac)
    requires
        off + 6 <= packet.len(),
    ensures
        r@ == packet@.subrange(off as int, off + 6),
{
    let r = [
        packet[off],
        packet[off + 1],
        packet[off + 2],
        packet[off + 3],
        packet[off + 4],
        packet[off + 5],
    ];
    assert(r@ =~= packet@.subrange(off as int, off + 6));
    r
}

fn ip_at(packet: &[u8], off: usize) -> (r: Ipv4)
    requires
        off + 4 <= packet.len(),
    ensures
        r@ == packet@.subrange(off as int, off + 4),
{
    let r = [packet[off], packet[off + 1], packet[off + 2], packet[off + 3]];
    assert(r@ =~= packet@.subrange(off as int, off + 4));
    r
}

/// Who sent an ARP reply. `None` for every other frame: requests, and replies
/// that are not for IPv4 over Ethernet.
pub fn parse_arp_reply(packet: &[u8]) -> (r: Option<ArpReply>)
    ensures
        r is Some <==> is_arp_reply(packet@),
        r matches Some(a) ==> {
            &&& a.sender_mac@ == packet@.subrange(22, 28)
            &&& a.sender_ip@ == packet@.subrange(28, 32)
        },
{
    if packet.len() < 42 {
        return None;
    }
    if bytes::be16_at(packet, 12) != ETHERTYPE_ARP {
        return None;
    }
    assert(packet@.subrange(14, 20) =~= seq![
        packet@[14],
        packet@[15],
        packet@[16],
        packet@[17],
        packet@[18],
        packet@[19],
    ]);
    let ethernet_ipv4 = packet[14] == 0 && packet[15] == 1 && packet[16] == 8 && packet[17] == 0
        && packet[18] == 6 && packet[19] == 4;
    if !ethernet_ipv4 {
        assert(seq![0u8, 1, 8, 0, 6, 4][0] == 0 && seq![0u8, 1, 8, 0, 6, 4][1] == 1 && seq![
            0u8,
            1,
            8,
            0,
            6,
            4,
        ][2] == 8 && seq![0u8, 1, 8, 0, 6, 4][3] == 0 && seq![0u8, 1, 8, 0, 6, 4][4] == 6 && seq![
            0u8,
            1,
            8,
            0,
            6,
            4,
        ][5] == 4);
        return None;
    }
    if bytes::be16_at(packet, 20) != ARP_OP_REPLY {
        return None;
    }
    Some(ArpReply { sender_ip: ip_at(packet, 28), sender_mac: mac_at(packet, 22) })
}

// --- IPv4 and ICMP -----------------------------------------------------------------

/// An echo request with 0 in the place of the checksum.
pub open spec fn echo_unsummed(ident: u16, seq: u16) -> Seq<u8> {
    seq![ICMP_TYPE_ECHO_REQUEST, 0u8, 0u8, 0u8] + bytes::be16_bytes(ident) + bytes::be16_bytes(seq)
        + PING_PAYLOAD@
}

/// An echo request.
pub open spec fn echo_packet(ident: u16, seq: u16) -> Seq<u8> {
    let p = echo_unsummed(ident, seq);
    with_be16(p, 2, checksum(p) as u16)
}

/// The IPv4 header of an echo request, with 0 in the place of the checksum: no
/// options, not fragmented, a lifetime of 64 hops.
pub open spec fn ip_unsummed(src: Seq<u8>, dst: Seq<u8>, total_length: u16) -> Seq<u8> {
    seq![0x45u8, 0x00u8] + bytes::be16_bytes(total_length) + bytes::be16_bytes(1)
        + bytes::be16_bytes(0) + seq![64u8, IP_PROTO_ICMP, 0u8, 0u8] + src + dst
}

/// The IPv4 header of an echo request.
pub open spec fn ip_header(src: Seq<u8>, dst: Seq<u8>, total_length: u16) -> Seq<u8> {
    let h = ip_unsummed(src, dst, total_length);
    with_be16(h, 10, checksum(h) as u16)
}

/// The frame of an echo request.
pub fn build_ping(
    src_mac: Mac,
    src_ip: Ipv4,
    dst_mac: Mac,
    dst_ip: Ipv4,
    ident: u16,
    seq: u16,
) -> (r: Vec<u8>)
    ensures
        r@ == eth_header(dst_mac@, src_mac@, ETHERTYPE_IPV4) + ip_header(src_ip@, dst_ip@, 60)
            + echo_packet(ident, seq),
        r@.len() == 74,
        pings(r@, src_mac@, src_ip@, dst_mac@, dst_ip@, ident, seq),
{
    let mut echo: Vec<u8> = Vec::new();
    echo.push(ICMP_TYPE_ECHO_REQUEST);
    echo.push(0);
    echo.push(0);
    echo.push(0);
    bytes::push_be16(&mut echo, ident);
    bytes::push_be16(&mut echo, seq);
    let payload = PING_PAYLOAD;
    bytes::push_all(&mut echo, payload.as_slice());
    assert(echo@ =~= echo_unsummed(ident, seq));
    let echo_csum = inet_csum(echo.as_slice());
    put_be16(&mut echo, 2, echo_csum);
    assert(echo@ == echo_packet(ident, seq));

    let total_length: u16 = 20 + echo.len() as u16;
    let mut ip: Vec<u8> = Vec::new();
    ip.push(0x45);
    ip.push(0x00);
    bytes::push_be16(&mut ip, total_length);
    bytes::push_be16(&mut ip, 0x0001);
    bytes::push_be16(&mut ip, 0x0000);
    ip.push(64);
    ip.push(IP_PROTO_ICMP);
    ip.push(0);
    ip.push(0);
    bytes::push_all(&mut ip, src_ip.as_slice());
    bytes::push_all(&mut ip, dst_ip.as_slice());
    assert(ip@ =~= ip_unsummed(src_ip@, dst_ip@, total_length));
    let ip_csum = inet_csum(ip.as_slice());
    put_be16(&mut ip, 10, ip_csum);
    assert(ip@ == ip_header(src_ip@, dst_ip@, total_length));

    let mut frame: Vec<u8> = Vec::new();
    write_eth_header(&mut frame, &dst_mac, &src_mac, ETHERTYPE_IPV4);
    bytes::push_all(&mut frame, ip.as_slice());
    bytes::push_all(&mut frame, echo.as_slice());
    assert(frame@ =~= eth_header(dst_mac@, src_mac@, ETHERTYPE_IPV4) + ip_header(
        src_ip@,
        dst_ip@,
        60,
    ) + echo_packet(ident, seq));
    proof {
        law_ping_pings(src_mac, src_ip, dst_mac, dst_ip, ident, seq);
    }
    frame
}

pub struct IcmpEchoReply {
    pub src_ip: Ipv4,
    pub id: u16,
    pub seq: u16,
}

/// Bytes of the IPv4 header of a frame.
pub open spec fn ip_header_len(p: Seq<u8>) -> int {
    (p[14] % 16) * 4
}

fn header_len_of(first: u8) -> (r: usize)
    ensures
        r == (first % 16) * 4,
{
    (first % 16) as usize * 4
}

/// Whether a frame is an echo reply.
pub open spec fn is_echo_reply(p: Seq<u8>) -> bool {
    let ihl = ip_header_len(p);
    &&& p.len() >= 42
    &&& bytes::be16(p, 12) == ETHERTYPE_IPV4
    &&& ihl >= 20
    &&& p.len() >= 14 + ihl + 8
    &&& p[23] == IP_PROTO_ICMP
    &&& p[14 + ihl] == ICMP_TYPE_ECHO_REPLY
}

/// Who answered an echo request, and which one. `None` for every other frame,
/// echo requests included.
pub fn parse_icmp_echo_reply(packet: &[u8]) -> (r: Option<IcmpEchoReply>)
    ensures
        r is Some <==> is_echo_reply(packet@),
        r matches Some(e) ==> {
            let echo = 14 + ip_header_len(packet@);
            &&& e.src_ip@ == packet@.subrange(26, 30)
            &&& e.id == bytes::be16(packet@, echo + 4)
            &&& e.seq == bytes::be16(packet@, echo + 6)
        },
{
    if packet.len() < 42 {
        return None;
    }
    if bytes::be16_at(packet, 12) != ETHERTYPE_IPV4 {
        return None;
    }
    let ip_start: usize = 14;
    let ihl = header_len_of(packet[ip_start]);
    if ihl < 20 || packet.len() < ip_start + ihl + 8 {
        return None;
    }
    if packet[ip_start + 9] != IP_PROTO_ICMP {
        return None;
    }
    let src_ip = ip_at(packet, ip_start + 12);
    let echo_start = ip_start + ihl;
    if packet[echo_start] != ICMP_TYPE_ECHO_REPLY {
        return None;
    }
    let id = bytes::be16_at(packet, echo_start + 4);
    let seq = bytes::be16_at(packet, echo_start + 6);
    Some(IcmpEchoReply { src_ip, id, seq })
}

/// A receiver accepts both checksums of an echo request.
pub proof fn law_ping_checksums_verify(src: Ipv4, dst: Ipv4, ident: u16, seq: u16)
    ensures
        checksum(echo_packet(ident, seq)) == 0,
        checksum(ip_header(src@, dst@, 60)) == 0,
{
    law_stored_checksum_verifies(echo_unsummed(ident, seq), 2);
    law_stored_checksum_verifies(ip_unsummed(src@, dst@, 60), 10);
}

/// The kernel does not take its own requests for replies.
pub proof fn law_requests_are_not_replies(
    src_mac: Mac,
    src_ip: Ipv4,
    dst_mac: Mac,
    dst_ip: Ipv4,
    ident: u16,
    seq: u16,
)
    ensures
        !is_arp_reply(
            eth_header(BROADCAST_MAC@, src_mac@, ETHERTYPE_ARP) + arp_packet(
                ARP_OP_REQUEST,
                src_mac@,
                src_ip@,
                seq![0u8, 0, 0, 0, 0, 0],
                dst_ip@,
            ),
        ),
        !is_echo_reply(
            eth_header(dst_mac@, src_mac@, ETHERTYPE_IPV4) + ip_header(src_ip@, dst_ip@, 60)
                + echo_packet(ident, seq),
        ),
{
    let arp = eth_header(BROADCAST_MAC@, src_mac@, ETHERTYPE_ARP) + arp_packet(
        ARP_OP_REQUEST,
        src_mac@,
        src_ip@,
        seq![0u8, 0, 0, 0, 0, 0],
        dst_ip@,
    );
    assert(arp[20] == 0 && arp[21] == 1);
    let h = ip_header(src_ip@, dst_ip@, 60);
    let ping = eth_header(dst_mac@, src_mac@, ETHERTYPE_IPV4) + h + echo_packet(ident, seq);
    assert(ping[14] == h[0]);
    assert(h[0] == 0x45);
    assert(ping[34] == echo_packet(ident, seq)[0]);
}

/// The reply to an echo request is recognised, and names the request: a frame
/// with the same identification and sequence number in an echo reply parses to
/// these.
pub proof fn law_reply_is_recognised(
    eth: Seq<u8>,
    ip: Seq<u8>,
    rest: Seq<u8>,
    ident: u16,
    seq: u16,
)
    requires
        eth.len() == 14,
        bytes::be16(eth, 12) == ETHERTYPE_IPV4,
        ip.len() == 20,
        ip[0] == 0x45,
        ip[9] == IP_PROTO_ICMP,
    ensures
        ({
            let p = eth + ip + (seq![ICMP_TYPE_ECHO_REPLY, 0u8, 0u8, 0u8] + bytes::be16_bytes(ident)
                + bytes::be16_bytes(seq) + rest);
            &&& is_echo_reply(p)
            &&& p.subrange(26, 30) == ip.subrange(12, 16)
            &&& bytes::be16(p, 14 + ip_header_len(p) + 4) == ident
            &&& bytes::be16(p, 14 + ip_header_len(p) + 6) == seq
        }),
{
    let echo = seq![ICMP_TYPE_ECHO_REPLY, 0u8, 0u8, 0u8] + bytes::be16_bytes(ident)
        + bytes::be16_bytes(seq) + rest;
    let p = eth + ip + echo;
    assert(p[14] == ip[0]);
    assert(p[23] == ip[9]);
    assert(p[12] == eth[12] && p[13] == eth[13]);
    assert(p[34] == echo[0]);
    assert(p[38] == echo[4] && p[39] == echo[5]);
    assert(p[40] == echo[6] && p[41] == echo[7]);
    assert(p.subrange(26, 30) =~= ip.subrange(12, 16));
}

/// Whether the frame `p` is sent to everybody and asks, for `src_mac` and
/// `src_ip`, who has `target_ip`.
pub open spec fn asks_for(p: Seq<u8>, src_mac: Seq<u8>, src_ip: Seq<u8>, target_ip: Seq<u8>) -> bool {
    &&& p.len() == 42
    &&& forall|i: int| 0 <= i < 6 ==> #[trigger] p[i] == 0xFF
    &&& forall|i: int| 0 <= i < 6 ==> p[6 + i] == #[trigger] src_mac[i]
    &&& p[12] == 0x08
    &&& p[13] == 0x06
    &&& p[14] == 0
    &&& p[15] == 1
    &&& p[16] == 0x08
    &&& p[17] == 0x00
    &&& p[18] == 6
    &&& p[19] == 4
    &&& p[20] == 0
    &&& p[21] == 1
    &&& forall|i: int| 0 <= i < 6 ==> p[22 + i] == #[trigger] src_mac[i]
    &&& forall|i: int| 0 <= i < 4 ==> p[28 + i] == #[trigger] src_ip[i]
    &&& forall|i: int| 32 <= i < 38 ==> #[trigger] p[i] == 0
    &&& forall|i: int| 0 <= i < 4 ==> p[38 + i] == #[trigger] target_ip[i]
}

/// Byte for byte, a request is an ARP request in an Ethernet frame to everybody.
pub proof fn law_request_asks(src_mac: Mac, src_ip: Ipv4, target_ip: Ipv4)
    ensures
        asks_for(
            eth_header(BROADCAST_MAC@, src_mac@, ETHERTYPE_ARP) + arp_packet(
                ARP_OP_REQUEST,
                src_mac@,
                src_ip@,
                seq![0u8, 0, 0, 0, 0, 0],
                target_ip@,
            ),
            src_mac@,
            src_ip@,
            target_ip@,
        ),
{
}

/// Whether the frame `p` is an ICMP echo request from `src_ip` to `dst_ip` with
/// this number and sequence number, in an IPv4 packet and an Ethernet frame, and
/// both sums in it are right.
pub open spec fn pings(
    p: Seq<u8>,
    src_mac: Seq<u8>,
    src_ip: Seq<u8>,
    dst_mac: Seq<u8>,
    dst_ip: Seq<u8>,
    ident: u16,
    seq: u16,
) -> bool {
    &&& p.len() == 74
    &&& forall|i: int| 0 <= i < 6 ==> p[i] == #[trigger] dst_mac[i]
    &&& forall|i: int| 0 <= i < 6 ==> p[6 + i] == #[trigger] src_mac[i]
    &&& p[12] == 0x08
    &&& p[13] == 0x00
    &&& p[14] == 0x45
    &&& p[16] == 0
    &&& p[17] == 60
    &&& p[20] == 0
    &&& p[21] == 0
    &&& p[22] == 64
    &&& p[23] == 1
    &&& forall|i: int| 0 <= i < 4 ==> p[26 + i] == #[trigger] src_ip[i]
    &&& forall|i: int| 0 <= i < 4 ==> p[30 + i] == #[trigger] dst_ip[i]
    &&& p[34] == 8
    &&& p[35] == 0
    &&& 0x100 * p[38] + p[39] == ident
    &&& 0x100 * p[40] + p[41] == seq
    &&& checksum(p.subrange(14, 34)) == 0
    &&& checksum(p.subrange(34, 74)) == 0
}

/// Byte for byte, a ping is an echo request whose sums a receiver finds right.
pub proof fn law_ping_pings(
    src_mac: Mac,
    src_ip: Ipv4,
    dst_mac: Mac,
    dst_ip: Ipv4,
    ident: u16,
    seq: u16,
)
    ensures
        pings(
            eth_header(dst_mac@, src_mac@, ETHERTYPE_IPV4) + ip_header(src_ip@, dst_ip@, 60)
                + echo_packet(ident, seq),
            src_mac@,
            src_ip@,
            dst_mac@,
            dst_ip@,
            ident,
            seq,
        ),
{
    let h = ip_header(src_ip@, dst_ip@, 60);
    let e = echo_packet(ident, seq);
    let p = eth_header(dst_mac@, src_mac@, ETHERTYPE_IPV4) + h + e;
    law_ping_checksums_verify(src_ip, dst_ip, ident, seq);
    assert(p.subrange(14, 34) =~= h);
    assert(p.subrange(34, 74) =~= e);
}

/// An ARP reply is recognised by its bytes, and by nothing else.
pub proof fn law_arp_reply_is_recognised(p: Seq<u8>)
    ensures
        is_arp_reply(p) <==> p.len() >= 42 && p[12] == 0x08 && p[13] == 0x06 && p[14] == 0 && p[15]
            == 1 && p[16] == 0x08 && p[17] == 0 && p[18] == 6 && p[19] == 4 && p[20] == 0 && p[21]
            == 2,
{
    let start = seq![0u8, 1, 8, 0, 6, 4];
    if p.len() >= 42 {
        if p.subrange(14, 20) == start {
            assert(p.subrange(14, 20)[0] == p[14] && p.subrange(14, 20)[1] == p[15] && p.subrange(
                14,
                20,
            )[2] == p[16] && p.subrange(14, 20)[3] == p[17] && p.subrange(14, 20)[4] == p[18]
                && p.subrange(14, 20)[5] == p[19]);
        }
        if p[14] == 0 && p[15] == 1 && p[16] == 8 && p[17] == 0 && p[18] == 6 && p[19] == 4 {
            assert(p.subrange(14, 20) =~= start);
        }
    }
}

/// The sum is the complement of the words of two bytes added up, where a carry
/// counts as one: two more bytes take their word from it, a missing last byte
/// counts as zero, and nothing at all but zeros leaves it at 0xFFFF.
pub proof fn law_checksum_adds_words(s: Seq<u8>, a: u8, b: u8)
    requires
        s.len() % 2 == 0,
    ensures
        checksum(Seq::empty()) == 0xFFFF,
        checksum(s) <= 0xFFFF,
        (checksum(s) - checksum(s.push(a).push(b)) - (0x100 * a + b)) % 0xFFFF == 0,
        checksum(s.push(a).push(b)) == 0xFFFF <==> checksum(s) == 0xFFFF && a == 0 && b == 0,
        checksum(s.push(a)) == checksum(s.push(a).push(0)),
{
    lemma_sum_push(s, a, b);
    lemma_sum_push(s, a, 0);
    let x = word_sum(s);
    let w = (0x100 * a + b) as nat;
    let k = lemma_folded_mod(x);
    let l = lemma_folded_mod(x + w);
    assert(checksum(s) - checksum(s.push(a).push(b)) - w == 0xFFFF * (k - l));
    vstd::arithmetic::div_mod::lemma_mod_multiples_basic(k - l, 0xFFFF);
}

proof fn lemma_folded_mod(x: nat) -> (k: int)
    ensures
        folded(x) <= 0xFFFF,
        folded(x) == 0 <==> x == 0,
        x - folded(x) == 0xFFFF * k,
{
    if x > 0 {
        vstd::arithmetic::div_mod::lemma_fundamental_div_mod(x - 1, 0xFFFF);
        (x - 1) / 0xFFFF
    } else {
        0
    }
}

proof fn lemma_sum_push(s: Seq<u8>, a: u8, b: u8)
    requires
        s.len() % 2 == 0,
    ensures
        word_sum(s.push(a).push(b)) == word_sum(s) + 0x100 * a + b,
        word_sum(s.push(a)) == word_sum(s) + 0x100 * a,
    decreases s.len(),
{
    reveal_with_fuel(word_sum, 2);
    if s.len() >= 2 {
        lemma_sum_push(s.skip(2), a, b);
        assert(s.push(a).push(b).skip(2) =~= s.skip(2).push(a).push(b));
        assert(s.push(a).skip(2) =~= s.skip(2).push(a));
    } else {
        assert(s =~= Seq::<u8>::empty());
        assert(s.push(a).push(b).skip(2) =~= Seq::<u8>::empty());
    }
}

/// A packet is an echo reply if it is an IPv4 packet with ICMP in it, of type 0,
/// whose header is as long as its first byte says and at least 20 bytes long.
/// Nothing else is.
pub proof fn law_echo_reply_is_recognised(p: Seq<u8>)
    ensures
        ({
            let header = 4 * (p[14] % 16);
            is_echo_reply(p) <==> p.len() >= 42 && p[12] == 0x08 && p[13] == 0x00 && header >= 20
                && p.len() >= 14 + header + 8 && p[23] == 1 && p[14 + header] == 0
        }),
{
}

/// A table of fewer than eight addresses takes another one, and one of eight does
/// not.
pub proof fn law_table_holds_eight(table: ArpTable)
    ensures
        table.has_room() <==> table@.dom().len() < 8,
{
}

} // verus!
