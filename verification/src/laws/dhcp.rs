//! Laws of DHCP on the wire.

use vstd::prelude::*;

use crate::ip::Ipv4;

verus! {

/// Options on the wire: each its code, its length and its value.
pub open spec fn written(options: Seq<(u8, Seq<u8>)>) -> Seq<u8>
    decreases options.len(),
{
    if options.len() == 0 {
        Seq::empty()
    } else {
        seq![options[0].0, options[0].1.len() as u8] + options[0].1 + written(options.skip(1))
    }
}

/// Options that were written are read back, up to the end mark, whatever
/// follows it.
pub proof fn lemma_options_read_back(
    front: Seq<u8>,
    options: Seq<(u8, Seq<u8>)>,
    rest: Seq<u8>,
)
    requires
        forall|i: int|
            0 <= i < options.len() ==> (#[trigger] options[i]).0 != 0 && options[i].0 != 255
                && options[i].1.len() <= 255,
    ensures
        crate::dhcp::options_of(
            front + (written(options) + (seq![255u8] + rest)),
            front.len() as int,
        ) == options,
    decreases options.len(),
{
    let tail = seq![255u8] + rest;
    let b = front + (written(options) + tail);
    let at = front.len() as int;
    if options.len() == 0 {
        assert(b[at] == 255);
        assert(options =~= Seq::empty());
    } else {
        let (code, value) = options[0];
        assert(options[0].0 != 0);
        let head = seq![code, value.len() as u8] + value;
        let more = written(options.skip(1));
        assert forall|i: int| 0 <= i < options.skip(1).len() implies (
        #[trigger] options.skip(1)[i]).0 != 0 && options.skip(1)[i].0 != 255
            && options.skip(1)[i].1.len() <= 255 by {
            assert(options.skip(1)[i] == options[i + 1]);
        }
        assert(b =~= (front + head) + (more + tail));
        lemma_options_read_back(front + head, options.skip(1), rest);
        assert(b[at] == code && b[at + 1] == value.len());
        assert(b.subrange(at + 2, at + 2 + b[at + 1]) =~= value);
        assert(seq![options[0]] + options.skip(1) =~= options);
    }
}

/// Padding between options is passed over.
pub proof fn lemma_padding_is_passed(b: Seq<u8>, at: int)
    requires
        0 <= at < b.len(),
        b[at] == 0,
    ensures
        crate::dhcp::options_of(b, at) == crate::dhcp::options_of(b, at + 1),
{
}

/// The last option of a message type, and the last of a lease time, count; an
/// option of another length does not.
pub proof fn lemma_last_options_count(options: Seq<(u8, Seq<u8>)>, option: (u8, Seq<u8>))
    ensures
        option.0 == 53 && option.1.len() == 1 ==> crate::dhcp::type_in(options.push(option))
            == Some(option.1[0]),
        option.0 != 53 || option.1.len() != 1 ==> crate::dhcp::type_in(options.push(option))
            == crate::dhcp::type_in(options),
        option.0 == 51 && option.1.len() == 4 ==> crate::dhcp::lease_in(options.push(option))
            == Some(crate::bytes::word32(option.1, 0)),
        option.0 != 51 || option.1.len() != 4 ==> crate::dhcp::lease_in(options.push(option))
            == crate::dhcp::lease_in(options),
        crate::dhcp::type_in(Seq::empty()) is None,
        crate::dhcp::lease_in(Seq::empty()) is None,
{
    assert(options.push(option).drop_last() =~= options);
}

/// A DHCP frame: IPv4 and UDP, to port 67 or 68, a request or a reply, with the
/// magic cookie behind the 236 bytes of BOOTP.
pub proof fn lemma_dhcp_frames(frame: Seq<u8>)
    requires
        frame.len() >= 42,
    ensures
        ({
            let udp = 14 + (frame[14] % 16) * 4;
            let bootp = udp + 8;
            crate::dhcp::is_dhcp(frame) <==> {
                &&& frame[14] / 16 == 4
                &&& frame[23] == 17
                &&& frame.len() >= bootp + 240
                &&& crate::bytes::word16(frame, udp + 2) == 67 || crate::bytes::word16(
                    frame,
                    udp + 2,
                ) == 68
                &&& frame[bootp] == 1 || frame[bootp] == 2
                &&& crate::bytes::word32(frame, bootp + 236) == 0x6382_5363
            }
        }),
        frame.len() >= 14 + (frame[14] % 16) * 4 + 8 ==> crate::dhcp::bootp_part(frame)
            == frame.subrange(14 + (frame[14] % 16) * 4 + 8, frame.len() as int),
{
    let bootp = 14 + (frame[14] % 16) * 4 + 8;
    if frame.len() >= bootp {
        assert(crate::dhcp::bootp_part(frame) =~= frame.subrange(bootp, frame.len() as int));
    }
    if frame.len() >= bootp + 240 {
        let d = crate::dhcp::bootp_part(frame);
        assert(d[0] == frame[bootp] && d[236] == frame[bootp + 236] && d[237] == frame[bootp + 237]
            && d[238] == frame[bootp + 238] && d[239] == frame[bootp + 239]);
    }
}

/// A message says what stands in the frame: the client's hardware address, the
/// address it is given, and whether a server speaks.
pub proof fn lemma_messages_say(m: crate::dhcp::DhcpMessage, d: Seq<u8>)
    requires
        crate::dhcp::is_message(m, d),
        d.len() >= 240,
    ensures
        m.is_reply <==> d[0] == 2,
        forall|i: int| 0 <= i < 6 ==> m.chaddr@[i] == #[trigger] d[28 + i],
        m.yiaddr.bits == crate::bytes::word32(d, 16),
{
    assert forall|i: int| 0 <= i < 6 implies m.chaddr@[i] == #[trigger] d[28 + i] by {
        assert(d.subrange(28, 34)[i] == d[28 + i]);
    }
}

/// A relayed request: one hop more, as far as a byte counts; the relay's
/// address where there was none; everything else as it was.
pub proof fn lemma_relaying(payload: Seq<u8>, giaddr: Ipv4)
    ensures
        ({
            let r = crate::dhcp::relayed(payload, giaddr);
            &&& payload.len() < 28 ==> r == payload
            &&& payload.len() >= 28 ==> {
                &&& r.len() == payload.len()
                &&& payload[3] < 255 ==> r[3] == payload[3] + 1
                &&& payload[3] == 255 ==> r[3] == 255
                &&& crate::bytes::word32(payload, 24) == 0 ==> crate::bytes::word32(r, 24)
                    == giaddr.bits
                &&& crate::bytes::word32(payload, 24) != 0 ==> crate::bytes::word32(r, 24)
                    == crate::bytes::word32(payload, 24)
                &&& forall|i: int|
                    0 <= i < payload.len() && i != 3 && !(24 <= i < 28) ==> #[trigger] r[i]
                        == payload[i]
            }
        }),
{
    let r = crate::dhcp::relayed(payload, giaddr);
    if payload.len() >= 28 {
        crate::dhcp::lemma_relayed_keeps_request(payload, giaddr);
        if crate::dhcp::lacks_giaddr(payload) {
            crate::bytes::lemma_word32(r, 24, giaddr.bits);
        } else {
            assert(r[24] == r.subrange(24, 28)[0] && r[25] == r.subrange(24, 28)[1] && r[26]
                == r.subrange(24, 28)[2] && r[27] == r.subrange(24, 28)[3]);
        }
    }
}

/// What is relayed of a frame: the UDP payload, as long as the IP header says
/// and the frame is.
pub proof fn lemma_payloads(frame: Seq<u8>)
    requires
        frame.len() >= 34,
    ensures
        ({
            let start = 14 + (frame[14] % 16) * 4 + 8;
            let total = 14 + crate::bytes::word16(frame, 16);
            &&& crate::dhcp::is_udp(frame) <==> frame[14] / 16 == 4 && frame[23] == 17 && start
                <= frame.len()
            &&& crate::dhcp::udp_start(frame) + 8 == start
            &&& start <= total <= frame.len() ==> crate::dhcp::payload_end(frame) == total
            &&& total > frame.len() && start <= frame.len() ==> crate::dhcp::payload_end(frame)
                == frame.len()
            &&& total < start ==> crate::dhcp::payload_end(frame) == start
        }),
{
}

/// A reply to a client, byte by byte: to its own addresses, or to everybody
/// where it asked for a broadcast or has no address; from the switch and the
/// relay; UDP from port 67 to 68; and the payload as it came.
pub proof fn lemma_reply_layout(system_mac: Seq<u8>, giaddr: Ipv4, payload: Seq<u8>)
    requires
        system_mac.len() == 6,
        payload.len() >= 240,
        payload.len() + 28 < 0x1_0000,
    ensures
        ({
            let f = crate::dhcp::padded(
                crate::dhcp::reply_frame(
                    system_mac,
                    giaddr,
                    crate::dhcp::payload_receiver(payload),
                    payload,
                ),
            );
            let all = payload[10] >= 128 || crate::bytes::word32(payload, 16) == 0;
            &&& f.len() == 42 + payload.len()
            &&& all ==> f.subrange(0, 6) == seq![0xffu8, 0xffu8, 0xffu8, 0xffu8, 0xffu8, 0xffu8]
                && crate::bytes::word32(f, 30) == 0xffff_ffff
            &&& !all ==> f.subrange(0, 6) == payload.subrange(28, 34) && crate::bytes::word32(f, 30)
                == crate::bytes::word32(payload, 16)
            &&& f.subrange(6, 12) == system_mac
            &&& f[12] == 8 && f[13] == 0
            &&& f[14] == 0x45
            &&& crate::bytes::word16(f, 16) == payload.len() + 28
            &&& f[22] == 64 && f[23] == 17
            &&& crate::bytes::word32(f, 26) == giaddr.bits
            &&& crate::bytes::word16(f, 34) == 67
            &&& crate::bytes::word16(f, 36) == 68
            &&& crate::bytes::word16(f, 38) == payload.len() + 8
            &&& f.subrange(42, f.len() as int) == payload
        }),
{
    let to = crate::dhcp::payload_receiver(payload);
    let f = crate::dhcp::reply_frame(system_mac, giaddr, to, payload);
    let len = payload.len() as int;
    let mac = match to {
        Some((mac, _)) => mac,
        None => seq![0xffu8, 0xffu8, 0xffu8, 0xffu8, 0xffu8, 0xffu8],
    };
    let eth = mac + system_mac + seq![8u8, 0u8];
    let ip = crate::dhcp::reply_ip(giaddr, to, len);
    let udp = crate::bytes::be16(67) + crate::bytes::be16(68) + crate::bytes::be16(
        ((payload.len() + 8) % 0x1_0000) as u16,
    ) + crate::bytes::be16(0);
    lemma_ip(giaddr, to, len);
    assert(mac.len() == 6);
    assert(f =~= eth + ip + udp + payload);
    lemma_parts(eth, ip, udp, payload);
    assert(f.subrange(0, 6) =~= mac);
    assert(f.subrange(6, 12) =~= system_mac);
    assert(f[12] == eth[12] && f[13] == eth[13]);
    assert(f.subrange(34, 36) =~= crate::bytes::be16(67));
    assert(f.subrange(36, 38) =~= crate::bytes::be16(68));
    assert(f.subrange(38, 40) =~= crate::bytes::be16((payload.len() + 8) as u16));
    crate::bytes::lemma_word16(f, 34, 67);
    crate::bytes::lemma_word16(f, 36, 68);
    crate::bytes::lemma_word16(f, 38, (payload.len() + 8) as u16);
    assert(f[14] == ip[0] && f[22] == ip[8] && f[23] == ip[9]);
    assert(f.subrange(16, 18) =~= ip.subrange(2, 4));
    assert(f.subrange(26, 30) =~= ip.subrange(12, 16));
    assert(f.subrange(30, 34) =~= ip.subrange(16, 20));
    crate::bytes::lemma_word16(f, 16, (len + 28) as u16);
    crate::bytes::lemma_word32(f, 26, giaddr.bits);
    crate::bytes::lemma_word32(
        f,
        30,
        match to {
            Some((_, addr)) => addr,
            None => 0xffff_ffffu32,
        },
    );
}

proof fn lemma_parts(a: Seq<u8>, b: Seq<u8>, c: Seq<u8>, d: Seq<u8>)
    requires
        a.len() == 14,
        b.len() == 20,
        c.len() == 8,
    ensures
        ({
            let f = a + b + c + d;
            &&& f.len() == 42 + d.len()
            &&& forall|i: int| 0 <= i < 14 ==> f[i] == #[trigger] a[i]
            &&& forall|i: int| 0 <= i < 20 ==> f[14 + i] == #[trigger] b[i]
            &&& forall|i: int| 0 <= i < 8 ==> f[34 + i] == #[trigger] c[i]
            &&& f.subrange(42, f.len() as int) == d
        }),
{
    let f = a + b + c + d;
    assert(f.subrange(42, f.len() as int) =~= d);
}

proof fn lemma_ip(giaddr: Ipv4, to: Option<(Seq<u8>, u32)>, len: int)
    requires
        0 <= len,
        len + 28 < 0x1_0000,
    ensures
        ({
            let ip = crate::dhcp::reply_ip(giaddr, to, len);
            &&& ip.len() == 20
            &&& ip[0] == 0x45 && ip[8] == 64 && ip[9] == 17
            &&& ip.subrange(2, 4) == crate::bytes::be16((len + 28) as u16)
            &&& ip.subrange(12, 16) == crate::bytes::be32(giaddr.bits)
            &&& ip.subrange(16, 20) == crate::bytes::be32(
                match to {
                    Some((_, addr)) => addr,
                    None => 0xffff_ffffu32,
                },
            )
        }),
{
    let ip = crate::dhcp::reply_ip(giaddr, to, len);
    assert(ip.subrange(2, 4) =~= crate::bytes::be16((len + 28) as u16));
    assert(ip.subrange(12, 16) =~= crate::bytes::be32(giaddr.bits));
    assert(ip.subrange(16, 20) =~= crate::bytes::be32(
        match to {
            Some((_, addr)) => addr,
            None => 0xffff_ffffu32,
        },
    ));
}

} // verus!
