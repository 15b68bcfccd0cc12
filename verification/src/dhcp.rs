//! DHCP and ARP on the wire: what a snooped frame says, and the framing of
//! the relay.

use vstd::prelude::*;

use crate::bytes::{copy_bytes, push_all, push_be16, push_fill, read16, read32, read_mac};
use crate::checksum::ip_checksum;
use crate::ip::Ipv4;

verus! {

// --------------------------------------------------------------- options

/// The options from index `at` on: (code, value) up to the end mark, or to
/// one that does not fit. Pad bytes are passed over.
pub open spec fn options_of(b: Seq<u8>, at: int) -> Seq<(u8, Seq<u8>)>
    decreases b.len() - at,
{
    if at < 0 || at >= b.len() || b[at] == 255 {
        Seq::empty()
    } else if b[at] == 0 {
        options_of(b, at + 1)
    } else if at + 1 >= b.len() || at + 2 + b[at + 1] > b.len() {
        Seq::empty()
    } else {
        seq![(b[at], b.subrange(at + 2, at + 2 + b[at + 1]))] + options_of(b, at + 2 + b[at + 1])
    }
}

/// The value of the last option with a code and a value length.
pub open spec fn last_option(options: Seq<(u8, Seq<u8>)>, code: u8, len: nat) -> Option<Seq<u8>>
    decreases options.len(),
{
    if options.len() == 0 {
        None
    } else if options.last().0 == code && options.last().1.len() == len {
        Some(options.last().1)
    } else {
        last_option(options.drop_last(), code, len)
    }
}

/// Option 53: the DHCP message type.
pub open spec fn type_in(options: Seq<(u8, Seq<u8>)>) -> Option<u8> {
    match last_option(options, 53, 1) {
        Some(v) => Some(v[0]),
        None => None,
    }
}

/// Option 51: the lease time in seconds.
pub open spec fn lease_in(options: Seq<(u8, Seq<u8>)>) -> Option<u32> {
    match last_option(options, 51, 4) {
        Some(v) => Some(crate::bytes::word32(v, 0)),
        None => None,
    }
}

/// The message type and the lease time among the options from `start` on.
fn read_options(bytes: &[u8], start: usize) -> (r: (Option<u8>, Option<u32>))
    requires
        start <= bytes@.len(),
    ensures
        r.0 == type_in(options_of(bytes@, start as int)),
        r.1 == lease_in(options_of(bytes@, start as int)),
{
    let mut message_type: Option<u8> = None;
    let mut lease_secs: Option<u32> = None;
    let ghost all = options_of(bytes@, start as int);
    let ghost mut done: Seq<(u8, Seq<u8>)> = Seq::empty();
    let mut at: usize = start;
    let len: usize = bytes.len();
    assert(all =~= done + options_of(bytes@, at as int));
    while at < len && bytes[at] != 255
        invariant_except_break
            at <= len,
            len == bytes@.len(),
            all == done + options_of(bytes@, at as int),
            message_type == type_in(done),
            lease_secs == lease_in(done),
        ensures
            message_type == type_in(all),
            lease_secs == lease_in(all),
        decreases len - at,
    {
        let code: u8 = bytes[at];
        if code == 0 {
            at = at + 1;
        } else {
            if at + 1 >= len {
                assert(all =~= done);
                break;
            }
            let size: usize = bytes[at + 1] as usize;
            if len - at - 2 < size {
                assert(all =~= done);
                break;
            }
            let ghost value = bytes@.subrange(at + 2, at + 2 + size);
            let ghost rest = options_of(bytes@, at + 2 + size);
            let ghost item = (code, value);
            proof {
                assert(done.push(item).drop_last() =~= done);
                assert(done + (seq![item] + rest) =~= done.push(item) + rest);
            }
            if code == 53 && size == 1 {
                message_type = Some(bytes[at + 2]);
            }
            if code == 51 && size == 4 {
                lease_secs = Some(read32(bytes, at + 2));
                assert(crate::bytes::word32(value, 0) == crate::bytes::word32(bytes@, at + 2));
            }
            proof {
                done = done.push(item);
            }
            at = at + 2 + size;
        }
        proof {
            let rest = options_of(bytes@, at as int);
            assert(all == done + rest);
            if at >= len || bytes@[at as int] == 255 {
                assert(rest =~= Seq::empty());
                assert(all =~= done);
            }
        }
    }
    (message_type, lease_secs)
}

// -------------------------------------------------------------- messages

/// What a DHCP message says.
pub struct DhcpMessage {
    pub is_reply: bool,
    pub chaddr: [u8; 6],
    pub yiaddr: Ipv4,
    /// Option 53.
    pub message_type: Option<u8>,
    /// Option 51.
    pub lease_secs: Option<u32>,
}

/// The DHCP options begin behind the magic cookie.
pub open spec fn has_cookie(d: Seq<u8>) -> bool {
    d.len() >= 240 && d[236] == 99 && d[237] == 130 && d[238] == 83 && d[239] == 99
}

fn check_cookie(d: &[u8]) -> (r: bool)
    ensures
        r == has_cookie(d@),
{
    d.len() >= 240 && d[236] == 99 && d[237] == 130 && d[238] == 83 && d[239] == 99
}

/// Where the UDP header of an untagged IPv4 frame begins.
pub open spec fn udp_start(frame: Seq<u8>) -> int {
    14 + (frame[14] % 16) * 4
}

/// The BOOTP message in a frame, with whatever follows it.
pub open spec fn bootp_part(frame: Seq<u8>) -> Seq<u8> {
    frame.skip(udp_start(frame) + 8)
}

/// Is the frame DHCP in UDP in IPv4?
pub open spec fn is_dhcp(frame: Seq<u8>) -> bool {
    &&& frame.len() >= 42
    &&& frame[14] / 16 == 4
    &&& frame[23] == 17
    &&& frame.len() >= udp_start(frame) + 8 + 240
    &&& (crate::bytes::word16(frame, udp_start(frame) + 2) == 67 || crate::bytes::word16(frame, udp_start(frame) + 2) == 68)
    &&& (bootp_part(frame)[0] == 1 || bootp_part(frame)[0] == 2)
    &&& has_cookie(bootp_part(frame))
}

/// The message is what the BOOTP bytes say.
pub open spec fn is_message(m: DhcpMessage, d: Seq<u8>) -> bool {
    &&& m.is_reply == (d[0] == 2)
    &&& m.chaddr@ == d.subrange(28, 34)
    &&& m.yiaddr.bits == crate::bytes::word32(d, 16)
    &&& m.message_type == type_in(options_of(d, 240))
    &&& m.lease_secs == lease_in(options_of(d, 240))
}

/// A DHCP message out of an untagged IPv4/UDP frame; None = not DHCP.
pub fn parse_dhcp(frame: &[u8]) -> (r: Option<DhcpMessage>)
    ensures
        match r {
            Some(m) => is_dhcp(frame@) && is_message(m, bootp_part(frame@)),
            None => !is_dhcp(frame@),
        },
{
    let len: usize = frame.len();
    if len < 42 || frame[14] / 16 != 4 || frame[23] != 17 {
        return None;
    }
    let udp: usize = 14 + (frame[14] % 16) as usize * 4;
    if len < udp + 248 {
        return None;
    }
    let dport: u16 = read16(frame, udp + 2);
    if dport != 67 && dport != 68 {
        return None;
    }
    let d = copy_bytes(frame, udp + 8, len);
    assert(d@ =~= bootp_part(frame@));
    if (d[0] != 1 && d[0] != 2) || !check_cookie(d.as_slice()) {
        return None;
    }
    let (message_type, lease_secs) = read_options(d.as_slice(), 240);
    Some(
        DhcpMessage {
            is_reply: d[0] == 2,
            chaddr: read_mac(d.as_slice(), 28),
            yiaddr: Ipv4 { bits: read32(d.as_slice(), 16) },
            message_type,
            lease_secs,
        },
    )
}

/// What an ARP message says.
pub struct ArpMessage {
    pub is_reply: bool,
    pub sha: [u8; 6],
    pub spa: Ipv4,
    pub tha: [u8; 6],
}

/// Is the frame ARP for IPv4 over Ethernet?
pub open spec fn is_arp(frame: Seq<u8>) -> bool {
    &&& frame.len() >= 42
    &&& frame.subrange(14, 20) == seq![0u8, 1, 8, 0, 6, 4]
}

/// An Ethernet/IPv4 ARP out of an untagged frame; None = not ARP.
pub fn parse_arp(frame: &[u8]) -> (r: Option<ArpMessage>)
    ensures
        match r {
            Some(m) => is_arp(frame@) && m.is_reply == (crate::bytes::word16(frame@, 20) == 2) && m.sha@
                == frame@.subrange(22, 28) && m.spa.bits == crate::bytes::word32(frame@, 28) && m.tha@
                == frame@.subrange(32, 38),
            None => !is_arp(frame@),
        },
{
    let ghost head = frame@.subrange(14, 20);
    if frame.len() < 42 {
        return None;
    }
    if frame[14] != 0 || frame[15] != 1 || frame[16] != 8 || frame[17] != 0 || frame[18] != 6
        || frame[19] != 4 {
        assert(head[0] == frame@[14] && head[1] == frame@[15] && head[2] == frame@[16] && head[3]
            == frame@[17] && head[4] == frame@[18] && head[5] == frame@[19]);
        return None;
    }
    assert(head =~= seq![0u8, 1, 8, 0, 6, 4]);
    Some(
        ArpMessage {
            is_reply: read16(frame, 20) == 2,
            sha: read_mac(frame, 22),
            spa: Ipv4 { bits: read32(frame, 28) },
            tha: read_mac(frame, 32),
        },
    )
}

// --------------------------------------------------------- relay framing

/// Is there a UDP payload to relay in the frame: an IPv4 header marked UDP,
/// and a whole UDP header behind it?
pub open spec fn is_udp(frame: Seq<u8>) -> bool {
    frame.len() >= 34 && frame[14] / 16 == 4 && frame[23] == 17 && udp_start(frame) + 8
        <= frame.len()
}

/// Where the UDP payload of a frame ends. The IP total length bounds it: an
/// Ethernet frame is padded to 60 bytes, and relaying the padding would
/// corrupt the options a server reads.
pub open spec fn payload_end(frame: Seq<u8>) -> int {
    let total = 14 + crate::bytes::word16(frame, 16);
    if total < udp_start(frame) + 8 {
        udp_start(frame) + 8
    } else if total > frame.len() {
        frame.len() as int
    } else {
        total
    }
}

/// The BOOTP payload of a trapped DHCP frame (everything after the UDP
/// header). None = not a well-formed DHCP frame.
pub fn bootp_payload(frame: &[u8]) -> (r: Option<Vec<u8>>)
    ensures
        match r {
            Some(payload) => is_udp(frame@) && payload@ == frame@.subrange(
                udp_start(frame@) + 8,
                payload_end(frame@),
            ),
            None => !is_udp(frame@),
        },
{
    let len: usize = frame.len();
    if len < 34 || frame[14] / 16 != 4 || frame[23] != 17 {
        return None;
    }
    let start: usize = 14 + (frame[14] % 16) as usize * 4 + 8;
    if start > len {
        return None;
    }
    let total: usize = 14 + read16(frame, 16) as usize;
    let end: usize = if total < start {
        start
    } else if total > len {
        len
    } else {
        total
    };
    Some(copy_bytes(frame, start, end))
}

/// What a frame holds behind its IP datagram is never relayed: the payload
/// is the same with any padding.
pub proof fn lemma_padding_is_not_relayed(frame: Seq<u8>, padding: Seq<u8>)
    requires
        is_udp(frame),
        udp_start(frame) + 8 <= 14 + crate::bytes::word16(frame, 16) <= frame.len(),
    ensures
        is_udp(frame + padding),
        (frame + padding).subrange(udp_start(frame + padding) + 8, payload_end(frame + padding))
            == frame.subrange(udp_start(frame) + 8, payload_end(frame)),
{
    let f = frame + padding;
    assert(f[14] == frame[14] && f[23] == frame[23] && f[16] == frame[16] && f[17] == frame[17]);
    assert(f.subrange(udp_start(f) + 8, payload_end(f)) =~= frame.subrange(
        udp_start(frame) + 8,
        payload_end(frame),
    ));
}

/// No relay has put its address in yet.
pub open spec fn lacks_giaddr(payload: Seq<u8>) -> bool {
    payload[24] == 0 && payload[25] == 0 && payload[26] == 0 && payload[27] == 0
}

/// The relayed copy of a request: hop count bumped and giaddr filled in
/// (a request that already carries one keeps it — that relay owns the
/// reply path).
pub open spec fn relayed(payload: Seq<u8>, giaddr: Ipv4) -> Seq<u8> {
    let bumped = payload.update(
        3,
        if payload[3] == 255 {
            255u8
        } else {
            (payload[3] + 1) as u8
        },
    );
    if payload.len() < 28 {
        payload
    } else if lacks_giaddr(payload) {
        bumped.take(24) + crate::bytes::be32(giaddr.bits) + bumped.skip(28)
    } else {
        bumped
    }
}

pub fn with_giaddr(payload: &[u8], giaddr: Ipv4) -> (out: Vec<u8>)
    ensures
        out@ == relayed(payload@, giaddr),
{
    let len: usize = payload.len();
    if len < 28 {
        let out = copy_bytes(payload, 0, len);
        assert(out@ =~= payload@);
        return out;
    }
    let mut out = copy_bytes(payload, 0, 3);
    let hops: u8 = if payload[3] == 255 {
        255
    } else {
        payload[3] + 1
    };
    out.push(hops);
    let middle = copy_bytes(payload, 4, 24);
    push_all(&mut out, middle.as_slice());
    if payload[24] == 0 && payload[25] == 0 && payload[26] == 0 && payload[27] == 0 {
        giaddr.push_to(&mut out);
    } else {
        let had = copy_bytes(payload, 24, 28);
        push_all(&mut out, had.as_slice());
    }
    let tail = copy_bytes(payload, 28, len);
    push_all(&mut out, tail.as_slice());
    assert(out@ =~= relayed(payload@, giaddr));
    out
}

/// A relayed request keeps everything but the hop count and an empty
/// giaddr; one that already carries a giaddr keeps it.
pub proof fn lemma_relayed_keeps_request(payload: Seq<u8>, giaddr: Ipv4)
    requires
        payload.len() >= 28,
    ensures
        relayed(payload, giaddr).len() == payload.len(),
        forall|i: int|
            0 <= i < payload.len() && i != 3 && !(24 <= i < 28) ==> #[trigger] relayed(
                payload,
                giaddr,
            )[i] == payload[i],
        !lacks_giaddr(payload) ==> relayed(payload, giaddr).subrange(24, 28) == payload.subrange(
            24,
            28,
        ),
        lacks_giaddr(payload) ==> relayed(payload, giaddr).subrange(24, 28) == crate::bytes::be32(giaddr.bits),
{
    let r = relayed(payload, giaddr);
    if lacks_giaddr(payload) {
        assert(r.subrange(24, 28) =~= crate::bytes::be32(giaddr.bits));
    } else {
        assert(r.subrange(24, 28) =~= payload.subrange(24, 28));
    }
}

/// The BOOTP fields the relay reads back out of a reply.
pub struct BootpReply {
    pub is_reply: bool,
    pub chaddr: [u8; 6],
    pub yiaddr: Ipv4,
    pub broadcast_flag: bool,
    pub message_type: Option<u8>,
    pub lease_secs: Option<u32>,
}

/// The reply is what the BOOTP bytes say.
pub open spec fn is_bootp(r: BootpReply, d: Seq<u8>) -> bool {
    &&& r.is_reply == (d[0] == 2)
    &&& r.chaddr@ == d.subrange(28, 34)
    &&& r.yiaddr.bits == crate::bytes::word32(d, 16)
    &&& r.broadcast_flag == (d[10] >= 128)
    &&& r.message_type == type_in(options_of(d, 240))
    &&& r.lease_secs == lease_in(options_of(d, 240))
}

/// A bare BOOTP payload (no IP/UDP headers) — what arrives on the relay
/// socket.
pub fn parse_bootp(payload: &[u8]) -> (r: Option<BootpReply>)
    ensures
        match r {
            Some(reply) => has_cookie(payload@) && is_bootp(reply, payload@),
            None => !has_cookie(payload@),
        },
{
    if !check_cookie(payload) {
        return None;
    }
    let (message_type, lease_secs) = read_options(payload, 240);
    Some(
        BootpReply {
            is_reply: payload[0] == 2,
            chaddr: read_mac(payload, 28),
            yiaddr: Ipv4 { bits: read32(payload, 16) },
            broadcast_flag: payload[10] >= 128,
            message_type,
            lease_secs,
        },
    )
}

// ---------------------------------------------------------- client reply

/// Is a reply sent to the broadcast addresses? It is for a client that set
/// the broadcast flag or has no address yet.
pub open spec fn goes_to_all(payload: Seq<u8>) -> bool {
    payload[10] >= 128 || crate::bytes::word32(payload, 16) == 0
}

/// The front of the IPv4 header of a reply, up to the checksum.
pub open spec fn reply_ip_front(payload_len: int) -> Seq<u8> {
    seq![0x45u8, 0u8] + crate::bytes::be16(((payload_len + 28) % 0x1_0000) as u16) + seq![
        0u8,
        0u8,
        0x40u8,
        0u8,
        64u8,
        17u8,
    ]
}

/// The one client that a payload's reply is for: its MAC and address. None =
/// everybody.
pub open spec fn payload_receiver(payload: Seq<u8>) -> Option<(Seq<u8>, u32)> {
    if goes_to_all(payload) {
        None
    } else {
        Some((payload.subrange(28, 34), crate::bytes::word32(payload, 16)))
    }
}

/// The one client that a reply is for: its MAC and address. None = everybody.
pub open spec fn reply_receiver(reply: BootpReply) -> Option<(Seq<u8>, u32)> {
    if reply.broadcast_flag || reply.yiaddr.bits == 0 {
        None
    } else {
        Some((reply.chaddr@, reply.yiaddr.bits))
    }
}

/// The addresses of the IPv4 header of a reply.
pub open spec fn reply_ip_back(giaddr: Ipv4, to: Option<(Seq<u8>, u32)>) -> Seq<u8> {
    crate::bytes::be32(giaddr.bits) + crate::bytes::be32(
        match to {
            Some((_, addr)) => addr,
            None => 0xffff_ffffu32,
        },
    )
}

/// The IPv4 header of a reply.
pub open spec fn reply_ip(giaddr: Ipv4, to: Option<(Seq<u8>, u32)>, payload_len: int) -> Seq<u8> {
    let front = reply_ip_front(payload_len);
    let back = reply_ip_back(giaddr, to);
    front + crate::bytes::be16(crate::checksum::checksum(front + crate::bytes::be16(0) + back) as u16) + back
}

/// The reply frame without padding: Ethernet, IPv4 and UDP headers (the
/// UDP checksum left zero, which IPv4 allows and every DHCP client
/// accepts), then the BOOTP payload.
pub open spec fn reply_frame(
    system_mac: Seq<u8>,
    giaddr: Ipv4,
    to: Option<(Seq<u8>, u32)>,
    payload: Seq<u8>,
) -> Seq<u8> {
    (match to {
        Some((mac, _)) => mac,
        None => seq![0xffu8, 0xffu8, 0xffu8, 0xffu8, 0xffu8, 0xffu8],
    }) + system_mac + seq![8u8, 0u8] + reply_ip(giaddr, to, payload.len() as int) + crate::bytes::be16(67) + crate::bytes::be16(68) + crate::bytes::be16(
        ((payload.len() + 8) % 0x1_0000) as u16,
    ) + crate::bytes::be16(0) + payload
}

/// A frame padded to the 60-byte Ethernet minimum (the FCS follows on the
/// wire).
pub open spec fn padded(frame: Seq<u8>) -> Seq<u8> {
    if frame.len() < 60 {
        frame + Seq::new((60 - frame.len()) as nat, |i: int| 0u8)
    } else {
        frame
    }
}

fn build_reply_ip(giaddr: Ipv4, reply: &BootpReply, payload_len: usize) -> (ip: Vec<u8>)
    requires
        payload_len + 42 <= usize::MAX,
    ensures
        ip@ == reply_ip(giaddr, reply_receiver(*reply), payload_len as int),
{
    let mut front: Vec<u8> = Vec::new();
    front.push(0x45);
    front.push(0);
    push_be16(&mut front, ((payload_len + 28) % 0x1_0000) as u16);
    front.push(0);
    front.push(0);
    front.push(0x40);
    front.push(0);
    front.push(64);
    front.push(17);
    assert(front@ =~= reply_ip_front(payload_len as int));
    let dst = if reply.broadcast_flag || reply.yiaddr.is_unspecified() {
        Ipv4 { bits: 0xffff_ffff }
    } else {
        reply.yiaddr
    };
    let mut back: Vec<u8> = Vec::new();
    giaddr.push_to(&mut back);
    dst.push_to(&mut back);
    assert(back@ =~= reply_ip_back(giaddr, reply_receiver(*reply)));
    let mut open: Vec<u8> = Vec::new();
    push_all(&mut open, front.as_slice());
    push_be16(&mut open, 0);
    push_all(&mut open, back.as_slice());
    assert(open@ =~= front@ + crate::bytes::be16(0) + back@);
    proof {
        crate::checksum::lemma_word_sum_bound(open@);
    }
    let sum: u16 = ip_checksum(open.as_slice());
    let mut ip = front;
    push_be16(&mut ip, sum);
    push_all(&mut ip, back.as_slice());
    ip
}

/// Wrap a relayed reply in Ethernet/IPv4/UDP for the client side.
///
/// A client that set the broadcast flag (or has no address yet) is sent
/// to the broadcast addresses; anything else goes to its own MAC and
/// yiaddr. The UDP checksum is left zero, which IPv4 allows and every
/// DHCP client accepts.
pub fn build_client_reply(
    system_mac: [u8; 6],
    giaddr: Ipv4,
    reply: &BootpReply,
    payload: &[u8],
) -> (frame: Vec<u8>)
    requires
        payload@.len() + 42 <= usize::MAX,
    ensures
        frame@ == padded(reply_frame(system_mac@, giaddr, reply_receiver(*reply), payload@)),
{
    let mut frame: Vec<u8> = Vec::new();
    if reply.broadcast_flag || reply.yiaddr.is_unspecified() {
        push_fill(&mut frame, 0xff, 6);
        assert(frame@ =~= seq![0xffu8, 0xffu8, 0xffu8, 0xffu8, 0xffu8, 0xffu8]);
    } else {
        push_all(&mut frame, reply.chaddr.as_slice());
        assert(frame@ =~= reply.chaddr@);
    }
    push_all(&mut frame, system_mac.as_slice());
    let ghost eth = frame@;
    frame.push(8);
    frame.push(0);
    assert(frame@ =~= eth + seq![8u8, 0u8]);
    let ip = build_reply_ip(giaddr, reply, payload.len());
    push_all(&mut frame, ip.as_slice());
    push_be16(&mut frame, 67);
    push_be16(&mut frame, 68);
    push_be16(&mut frame, ((payload.len() + 8) % 0x1_0000) as u16);
    push_be16(&mut frame, 0);
    push_all(&mut frame, payload);
    let ghost whole = reply_frame(system_mac@, giaddr, reply_receiver(*reply), payload@);
    assert(frame@ == whole);
    if frame.len() < 60 {
        let missing: usize = 60 - frame.len();
        push_fill(&mut frame, 0, missing);
        assert(frame@ =~= padded(whole));
    }
    frame
}

/// The IPv4 header of every reply sums to zero, and stands at byte 14 of
/// the frame, which is never shorter than Ethernet allows.
pub proof fn lemma_reply_checksum(
    system_mac: [u8; 6],
    giaddr: Ipv4,
    reply: BootpReply,
    payload: Seq<u8>,
)
    ensures
        ({
            let to = reply_receiver(reply);
            let ip = reply_ip(giaddr, to, payload.len() as int);
            let frame = padded(reply_frame(system_mac@, giaddr, to, payload));
            &&& frame.subrange(14, 34) == ip
            &&& crate::checksum::checksum(ip) == 0
            &&& frame.len() >= 60
        }),
{
    let to = reply_receiver(reply);
    let ip = reply_ip(giaddr, to, payload.len() as int);
    crate::checksum::lemma_checksum_closes(
        reply_ip_front(payload.len() as int),
        reply_ip_back(giaddr, to),
    );
    let frame = padded(reply_frame(system_mac@, giaddr, to, payload));
    assert(frame.subrange(14, 34) =~= ip);
}

} // verus!
