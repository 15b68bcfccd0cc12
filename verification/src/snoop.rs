//! The IGMP/MLD snooping engine: per-VLAN group->port membership with
//! timers, querier election (plus an optional local querier),
//! fast-leave, and mrouter tracking (dynamic from received queries,
//! static from config).
//!
//! One generic engine, instantiated per family (IGMP over IPv4, MLD
//! over ICMPv6): config and packets in, group/mrouter updates and query
//! frames out.
//!
//! VLAN classification: hostif punt delivery strips VLAN tags, so the
//! transport resolves a frame's VLAN from the ingress port's untagged
//! VLAN (access/native) and hands `(port, vlan, frame)` to the engine.
//! Unknown-multicast restriction (to the mrouter set) is emitted only
//! for VLANs that actually have an mrouter or a local querier — a
//! quiet network keeps flooding rather than blackholing.

use vstd::prelude::*;

use crate::bytes::{copy_bytes, push_all, push_be16, push_fill, read16, read32};
use crate::checksum::ip_checksum;
use crate::clock::elapsed;
use crate::ip::{IpAddr, Ipv4, Ipv6};
use crate::ordmap::{Key, OrdMap, TextSet};
use crate::text::copy_texts;

verus! {

#[derive(Debug, Clone, Copy, PartialEq, Eq, Structural)]
pub enum Family {
    Igmp,
    Mld,
}

/// A parsed snooping-relevant message.
#[derive(Debug, Clone, Copy, PartialEq, Eq, Structural)]
pub enum Message {
    /// A membership report (join) for `group`, at protocol `version`.
    Report { group: IpAddr, version: u8 },
    /// A leave / done for `group`.
    Leave { group: IpAddr },
    /// A membership query from `source` (a router or another querier).
    Query { source: IpAddr },
}

// ---------------------------------------------------------------- parsing

/// The IPv4 address at an index.
pub open spec fn v4_at(b: Seq<u8>, at: int) -> IpAddr {
    IpAddr::V4(Ipv4 { bits: crate::bytes::word32(b, at) })
}

/// The IPv6 address at an index.
pub open spec fn v6_at(b: Seq<u8>, at: int) -> IpAddr {
    IpAddr::V6(
        Ipv6 {
            hi: (crate::bytes::word32(b, at) * 0x1_0000_0000 + crate::bytes::word32(b, at + 4)) as u64,
            lo: (crate::bytes::word32(b, at + 8) * 0x1_0000_0000 + crate::bytes::word32(b, at + 12)) as u64,
        },
    )
}

fn read_v4(b: &[u8], at: usize) -> (r: IpAddr)
    requires
        at + 4 <= b@.len(),
    ensures
        r == v4_at(b@, at as int),
{
    IpAddr::V4(Ipv4 { bits: read32(b, at) })
}

fn read_v6(b: &[u8], at: usize) -> (r: IpAddr)
    requires
        at + 16 <= b@.len(),
    ensures
        r == v6_at(b@, at as int),
{
    let len: usize = b.len();
    assert(at + 16 <= len);
    IpAddr::V6(
        Ipv6 {
            hi: read32(b, at) as u64 * 0x1_0000_0000 + read32(b, at + 4) as u64,
            lo: read32(b, at + 8) as u64 * 0x1_0000_0000 + read32(b, at + 12) as u64,
        },
    )
}

/// What a group record says: TO_IN / IS_IN with no sources = leave;
/// everything else that names a group = join.
pub open spec fn record_message(kind: u8, sources: u16, group: IpAddr, version: u8) -> Seq<Message> {
    if (kind == 1 || kind == 3) && sources == 0 {
        seq![Message::Leave { group }]
    } else if 1 <= kind <= 6 {
        seq![Message::Report { group, version }]
    } else {
        Seq::empty()
    }
}

/// The messages of at most `left` IGMPv3 group records from index `at` on;
/// a record cut short ends them.
pub open spec fn igmp_records(b: Seq<u8>, at: int, left: int) -> Seq<Message>
    decreases left,
{
    if left <= 0 || b.len() < at + 8 {
        Seq::empty()
    } else {
        record_message(b[at], crate::bytes::word16(b, at + 2), v4_at(b, at + 4), 3) + igmp_records(
            b,
            at + 8 + crate::bytes::word16(b, at + 2) * 4 + b[at + 1] * 4,
            left - 1,
        )
    }
}

/// The messages of an IGMP packet.
pub open spec fn igmp_messages(b: Seq<u8>, source: IpAddr) -> Seq<Message> {
    if b[0] == 0x11 {
        seq![Message::Query { source }]
    } else if b[0] == 0x12 {
        seq![Message::Report { group: v4_at(b, 4), version: 1 }]
    } else if b[0] == 0x16 {
        seq![Message::Report { group: v4_at(b, 4), version: 2 }]
    } else if b[0] == 0x17 {
        seq![Message::Leave { group: v4_at(b, 4) }]
    } else if b[0] == 0x22 {
        igmp_records(b, 8, crate::bytes::word16(b, 6) as int)
    } else {
        Seq::empty()
    }
}

/// Where the IGMP packet of an IPv4 frame begins.
pub open spec fn igmp_start(frame: Seq<u8>) -> int {
    14 + (frame[14] % 16) * 4
}

/// Is the frame IGMP in IPv4?
pub open spec fn is_igmp(frame: Seq<u8>) -> bool {
    &&& frame.len() >= 42
    &&& crate::bytes::word16(frame, 12) == 0x0800
    &&& frame[14] / 16 == 4
    &&& frame.len() >= igmp_start(frame) + 8
    &&& frame[23] == 2
}

/// The messages of at most `left` MLDv2 group records from index `at` on; a
/// record cut short ends them.
pub open spec fn mld_records(b: Seq<u8>, at: int, left: int) -> Seq<Message>
    decreases left,
{
    if left <= 0 || b.len() < at + 20 {
        Seq::empty()
    } else {
        record_message(b[at], crate::bytes::word16(b, at + 2), v6_at(b, at + 4), 2) + mld_records(
            b,
            at + 20 + crate::bytes::word16(b, at + 2) * 16 + b[at + 1] * 4,
            left - 1,
        )
    }
}

/// The messages of an ICMPv6 packet.
pub open spec fn mld_messages(b: Seq<u8>, source: IpAddr) -> Seq<Message> {
    if b[0] == 130 {
        seq![Message::Query { source }]
    } else if b[0] == 131 && b.len() >= 24 {
        seq![Message::Report { group: v6_at(b, 8), version: 1 }]
    } else if b[0] == 132 && b.len() >= 24 {
        seq![Message::Leave { group: v6_at(b, 8) }]
    } else if b[0] == 143 {
        mld_records(b, 8, crate::bytes::word16(b, 6) as int)
    } else {
        Seq::empty()
    }
}

/// Is there a hop-by-hop header in front of the ICMPv6 packet? MLD rides
/// behind a router-alert option.
pub open spec fn has_hop_by_hop(frame: Seq<u8>) -> bool {
    frame[20] == 0
}

/// Where the ICMPv6 packet of an IPv6 frame begins.
pub open spec fn mld_start(frame: Seq<u8>) -> int {
    if has_hop_by_hop(frame) {
        54 + (frame[55] + 1) * 8
    } else {
        54
    }
}

/// Is the frame ICMPv6, as far as snooping looks?
pub open spec fn is_mld(frame: Seq<u8>) -> bool {
    &&& frame.len() >= 62
    &&& crate::bytes::word16(frame, 12) == 0x86dd
    &&& frame[14] / 16 == 6
    &&& (if has_hop_by_hop(frame) {
        frame[54] == 58
    } else {
        frame[20] == 58
    })
    &&& frame.len() >= mld_start(frame) + 8
}

/// The snooping-relevant messages of a frame.
pub open spec fn messages(family: Family, frame: Seq<u8>) -> Seq<Message> {
    match family {
        Family::Igmp => if is_igmp(frame) {
            igmp_messages(frame.skip(igmp_start(frame)), v4_at(frame, 26))
        } else {
            Seq::empty()
        },
        Family::Mld => if is_mld(frame) {
            mld_messages(frame.skip(mld_start(frame)), v6_at(frame, 22))
        } else {
            Seq::empty()
        },
    }
}

/// Parse the snooping-relevant messages out of an Ethernet frame.
pub fn parse(family: Family, frame: &[u8]) -> (r: Vec<Message>)
    ensures
        r@ == messages(family, frame@),
{
    match family {
        Family::Igmp => parse_igmp(frame),
        Family::Mld => parse_mld(frame),
    }
}

fn push_record(out: &mut Vec<Message>, kind: u8, sources: u16, group: IpAddr, version: u8)
    ensures
        final(out)@ == old(out)@ + record_message(kind, sources, group, version),
{
    let ghost before = out@;
    if (kind == 1 || kind == 3) && sources == 0 {
        out.push(Message::Leave { group });
    } else if kind >= 1 && kind <= 6 {
        out.push(Message::Report { group, version });
    }
    assert(out@ =~= before + record_message(kind, sources, group, version));
}

fn read_igmp_records(b: &[u8]) -> (out: Vec<Message>)
    requires
        b@.len() >= 8,
    ensures
        out@ == igmp_records(b@, 8, crate::bytes::word16(b@, 6) as int),
{
    let len: usize = b.len();
    let ghost all = igmp_records(b@, 8, crate::bytes::word16(b@, 6) as int);
    let mut out: Vec<Message> = Vec::new();
    let mut at: usize = 8;
    let mut left: u16 = read16(b, 6);
    assert(all =~= out@ + igmp_records(b@, at as int, left as int));
    while left > 0 && at <= len && len - at >= 8
        invariant
            len == b@.len(),
            all == igmp_records(b@, 8, crate::bytes::word16(b@, 6) as int),
            all == out@ + igmp_records(b@, at as int, left as int),
        decreases left,
    {
        let sources: u16 = read16(b, at + 2);
        let group = read_v4(b, at + 4);
        let size: usize = 8 + sources as usize * 4 + b[at + 1] as usize * 4;
        let ghost rest = igmp_records(b@, at + size, left - 1);
        let ghost item = record_message(b@[at as int], sources, group, 3);
        let ghost had = out@;
        push_record(&mut out, b[at], sources, group, 3);
        assert(had + (item + rest) =~= (had + item) + rest);
        if size > len - at {
            assert(rest =~= Seq::<Message>::empty());
            assert(out@ + rest =~= out@);
            return out;
        }
        at = at + size;
        left = left - 1;
    }
    assert(igmp_records(b@, at as int, left as int) =~= Seq::<Message>::empty());
    assert(all =~= out@);
    out
}

fn read_mld_records(b: &[u8]) -> (out: Vec<Message>)
    requires
        b@.len() >= 8,
    ensures
        out@ == mld_records(b@, 8, crate::bytes::word16(b@, 6) as int),
{
    let len: usize = b.len();
    let ghost all = mld_records(b@, 8, crate::bytes::word16(b@, 6) as int);
    let mut out: Vec<Message> = Vec::new();
    let mut at: usize = 8;
    let mut left: u16 = read16(b, 6);
    assert(all =~= out@ + mld_records(b@, at as int, left as int));
    while left > 0 && at <= len && len - at >= 20
        invariant
            len == b@.len(),
            all == mld_records(b@, 8, crate::bytes::word16(b@, 6) as int),
            all == out@ + mld_records(b@, at as int, left as int),
        decreases left,
    {
        let sources: u16 = read16(b, at + 2);
        let group = read_v6(b, at + 4);
        let size: usize = 20 + sources as usize * 16 + b[at + 1] as usize * 4;
        let ghost rest = mld_records(b@, at + size, left - 1);
        let ghost item = record_message(b@[at as int], sources, group, 2);
        let ghost had = out@;
        push_record(&mut out, b[at], sources, group, 2);
        assert(had + (item + rest) =~= (had + item) + rest);
        if size > len - at {
            assert(rest =~= Seq::<Message>::empty());
            assert(out@ + rest =~= out@);
            return out;
        }
        at = at + size;
        left = left - 1;
    }
    assert(mld_records(b@, at as int, left as int) =~= Seq::<Message>::empty());
    assert(all =~= out@);
    out
}

fn one(m: Message) -> (r: Vec<Message>)
    ensures
        r@ == seq![m],
{
    let mut r: Vec<Message> = Vec::new();
    r.push(m);
    assert(r@ =~= seq![m]);
    r
}

fn parse_igmp(frame: &[u8]) -> (r: Vec<Message>)
    ensures
        r@ == messages(Family::Igmp, frame@),
{
    // Ethernet + IPv4 + IGMP.
    let len: usize = frame.len();
    if len < 42 || read16(frame, 12) != 0x0800 {
        return Vec::new();
    }
    let start: usize = 14 + (frame[14] % 16) as usize * 4;
    if frame[14] / 16 != 4 || len < start + 8 || frame[23] != 2 {
        return Vec::new();
    }
    let source = read_v4(frame, 26);
    let igmp = copy_bytes(frame, start, len);
    let b = igmp.as_slice();
    assert(b@ =~= frame@.skip(igmp_start(frame@)));
    match b[0] {
        0x11 => one(Message::Query { source }),
        0x12 => one(Message::Report { group: read_v4(b, 4), version: 1 }),
        0x16 => one(Message::Report { group: read_v4(b, 4), version: 2 }),
        0x17 => one(Message::Leave { group: read_v4(b, 4) }),
        // IGMPv3 report: group records.
        0x22 => read_igmp_records(b),
        _ => Vec::new(),
    }
}

fn parse_mld(frame: &[u8]) -> (r: Vec<Message>)
    ensures
        r@ == messages(Family::Mld, frame@),
{
    // Ethernet + IPv6 (+ hop-by-hop) + ICMPv6.
    let len: usize = frame.len();
    if len < 62 || read16(frame, 12) != 0x86dd {
        return Vec::new();
    }
    if frame[14] / 16 != 6 {
        return Vec::new();
    }
    let source = read_v6(frame, 22);
    let mut next: u8 = frame[20];
    let mut start: usize = 54;
    // MLD rides behind a hop-by-hop router-alert option.
    if next == 0 {
        next = frame[54];
        start = 54 + (frame[55] as usize + 1) * 8;
    }
    if next != 58 || len < start + 8 {
        return Vec::new();
    }
    let body = copy_bytes(frame, start, len);
    let b = body.as_slice();
    assert(b@ =~= frame@.skip(mld_start(frame@)));
    match b[0] {
        130 => one(Message::Query { source }),
        131 => if b.len() >= 24 {
            one(Message::Report { group: read_v6(b, 8), version: 1 })
        } else {
            Vec::new()
        },
        132 => if b.len() >= 24 {
            one(Message::Leave { group: read_v6(b, 8) })
        } else {
            Vec::new()
        },
        143 => read_mld_records(b),
        _ => Vec::new(),
    }
}

// ---------------------------------------------------------------- queries

/// The IGMPv2 general query, with its checksum.
pub open spec fn igmp_query() -> Seq<u8> {
    let front = seq![0x11u8, 100u8];
    let back = seq![0u8, 0u8, 0u8, 0u8];
    front + crate::bytes::be16(crate::checksum::checksum(front + crate::bytes::be16(0) + back) as u16) + back
}

/// The IPv4 header of a general query to 224.0.0.1.
pub open spec fn igmp_query_ip(source: Ipv4) -> Seq<u8> {
    let front = seq![0x45u8, 0xc0u8, 0u8, 28u8, 0u8, 0u8, 0u8, 0u8, 1u8, 2u8];
    let back = crate::bytes::be32(source.bits) + seq![224u8, 0u8, 0u8, 1u8];
    front + crate::bytes::be16(crate::checksum::checksum(front + crate::bytes::be16(0) + back) as u16) + back
}

/// ff02::1
pub open spec fn all_nodes() -> Ipv6 {
    Ipv6 { hi: 0xff02_0000_0000_0000, lo: 1 }
}

/// The end of an MLDv1 general query: no delay left out, no group.
pub open spec fn mld_query_tail() -> Seq<u8> {
    seq![0x27u8, 0x10u8, 0u8, 0u8] + Seq::new(16, |i: int| 0u8)
}

/// The pseudo header that an ICMPv6 checksum covers.
pub open spec fn mld_pseudo(source: Ipv6) -> Seq<u8> {
    crate::ip::v6_bytes(source) + crate::ip::v6_bytes(all_nodes()) + crate::bytes::be32(24) + seq![0u8, 0u8, 0u8, 58u8]
}

/// The MLDv1 general query, with its checksum.
pub open spec fn mld_query(source: Ipv6) -> Seq<u8> {
    let sum = crate::checksum::checksum(mld_pseudo(source) + seq![130u8, 0u8] + crate::bytes::be16(0) + mld_query_tail());
    seq![130u8, 0u8] + crate::bytes::be16(sum as u16) + mld_query_tail()
}

/// A general membership query as a whole Ethernet frame; nothing where the
/// address is not of the family.
pub open spec fn general_query(family: Family, src_mac: Seq<u8>, source: IpAddr) -> Seq<u8> {
    match (family, source) {
        (Family::Igmp, IpAddr::V4(a)) => seq![1u8, 0u8, 0x5eu8, 0u8, 0u8, 1u8] + src_mac + seq![
            8u8,
            0u8,
        ] + igmp_query_ip(a) + igmp_query(),
        (Family::Mld, IpAddr::V6(a)) => seq![0x33u8, 0x33u8, 0u8, 0u8, 0u8, 1u8] + src_mac + seq![
            0x86u8,
            0xddu8,
        ] + seq![0x60u8, 0u8, 0u8, 0u8, 0u8, 24u8, 58u8, 1u8] + crate::ip::v6_bytes(a) + crate::ip::v6_bytes(
            all_nodes(),
        ) + mld_query(a),
        _ => Seq::empty(),
    }
}

fn bytes2(a: u8, b: u8) -> (r: Vec<u8>)
    ensures
        r@ == seq![a, b],
{
    let mut r: Vec<u8> = Vec::new();
    r.push(a);
    r.push(b);
    assert(r@ =~= seq![a, b]);
    r
}

/// A packet with the checksum filled in between two parts; `covered` is
/// what the checksum covers in front of the packet.
fn sealed(covered: &[u8], front: &[u8], back: &[u8]) -> (r: Vec<u8>)
    requires
        covered@.len() + front@.len() + back@.len() + 2 <= 0x1_0000,
    ensures
        r@ == front@ + crate::bytes::be16(crate::checksum::checksum(covered@ + front@ + crate::bytes::be16(0) + back@) as u16) + back@,
{
    let mut open: Vec<u8> = Vec::new();
    push_all(&mut open, covered);
    push_all(&mut open, front);
    push_be16(&mut open, 0);
    push_all(&mut open, back);
    assert(open@ =~= covered@ + front@ + crate::bytes::be16(0) + back@);
    proof {
        crate::checksum::lemma_word_sum_bound(open@);
    }
    let sum: u16 = ip_checksum(open.as_slice());
    let mut r: Vec<u8> = Vec::new();
    push_all(&mut r, front);
    push_be16(&mut r, sum);
    push_all(&mut r, back);
    assert(r@ =~= front@ + crate::bytes::be16(sum) + back@);
    r
}

fn encode_igmp_query(src_mac: [u8; 6], source: Ipv4) -> (frame: Vec<u8>)
    ensures
        frame@ == general_query(Family::Igmp, src_mac@, IpAddr::V4(source)),
{
    let nothing: Vec<u8> = Vec::new();
    // IGMPv2 general query to 224.0.0.1.
    let front = bytes2(0x11, 100);
    let mut back: Vec<u8> = Vec::new();
    push_fill(&mut back, 0, 4);
    assert(back@ =~= seq![0u8, 0u8, 0u8, 0u8]);
    let igmp = sealed(nothing.as_slice(), front.as_slice(), back.as_slice());
    assert(nothing@ + front@ + crate::bytes::be16(0) + back@ =~= front@ + crate::bytes::be16(0) + back@);
    assert(igmp@ == igmp_query());

    let mut ip_front: Vec<u8> = Vec::new();
    ip_front.push(0x45);  // v4, ihl 5
    ip_front.push(0xc0);  // tos
    ip_front.push(0);
    ip_front.push(28);  // total length
    push_fill(&mut ip_front, 0, 4);  // id, flags
    ip_front.push(1);  // ttl
    ip_front.push(2);  // protocol IGMP
    assert(ip_front@ =~= seq![0x45u8, 0xc0u8, 0u8, 28u8, 0u8, 0u8, 0u8, 0u8, 1u8, 2u8]);
    let mut ip_back: Vec<u8> = Vec::new();
    source.push_to(&mut ip_back);
    ip_back.push(224);
    ip_back.push(0);
    ip_back.push(0);
    ip_back.push(1);
    assert(ip_back@ =~= crate::bytes::be32(source.bits) + seq![224u8, 0u8, 0u8, 1u8]);
    let ip = sealed(nothing.as_slice(), ip_front.as_slice(), ip_back.as_slice());
    assert(nothing@ + ip_front@ + crate::bytes::be16(0) + ip_back@ =~= ip_front@ + crate::bytes::be16(0) + ip_back@);
    assert(ip@ == igmp_query_ip(source));

    let mut frame: Vec<u8> = Vec::new();
    frame.push(1);
    frame.push(0);
    frame.push(0x5e);
    frame.push(0);
    frame.push(0);
    frame.push(1);
    assert(frame@ =~= seq![1u8, 0u8, 0x5eu8, 0u8, 0u8, 1u8]);
    push_all(&mut frame, src_mac.as_slice());
    let kind = bytes2(8, 0);
    push_all(&mut frame, kind.as_slice());
    push_all(&mut frame, ip.as_slice());
    push_all(&mut frame, igmp.as_slice());
    frame
}

fn encode_mld_query(src_mac: [u8; 6], source: Ipv6) -> (frame: Vec<u8>)
    ensures
        frame@ == general_query(Family::Mld, src_mac@, IpAddr::V6(source)),
{
    // MLDv1 general query to ff02::1.
    let dst = Ipv6 { hi: 0xff02_0000_0000_0000, lo: 1 };
    let front = bytes2(130, 0);
    let mut tail: Vec<u8> = Vec::new();
    tail.push(0x27);
    tail.push(0x10);
    push_fill(&mut tail, 0, 18);  // group: unspecified
    assert(tail@ =~= mld_query_tail());
    let mut pseudo: Vec<u8> = Vec::new();
    source.push_to(&mut pseudo);
    dst.push_to(&mut pseudo);
    crate::bytes::push_be32(&mut pseudo, 24);
    let ghost most = pseudo@;
    pseudo.push(0);
    pseudo.push(0);
    pseudo.push(0);
    pseudo.push(58);
    assert(pseudo@ =~= most + seq![0u8, 0u8, 0u8, 58u8]);
    assert(most =~= crate::ip::v6_bytes(source) + crate::ip::v6_bytes(all_nodes()) + crate::bytes::be32(24));
    let body = sealed(pseudo.as_slice(), front.as_slice(), tail.as_slice());
    assert(body@ == mld_query(source));

    let mut frame: Vec<u8> = Vec::new();
    frame.push(0x33);
    frame.push(0x33);
    frame.push(0);
    frame.push(0);
    frame.push(0);
    frame.push(1);
    assert(frame@ =~= seq![0x33u8, 0x33u8, 0u8, 0u8, 0u8, 1u8]);
    push_all(&mut frame, src_mac.as_slice());
    let kind = bytes2(0x86, 0xdd);
    push_all(&mut frame, kind.as_slice());
    let ghost eth = frame@;
    frame.push(0x60);
    frame.push(0);
    frame.push(0);
    frame.push(0);
    frame.push(0);
    frame.push(24);
    frame.push(58);  // next header ICMPv6 (router-alert HBH omitted)
    frame.push(1);  // hop limit
    assert(frame@ =~= eth + seq![0x60u8, 0u8, 0u8, 0u8, 0u8, 24u8, 58u8, 1u8]);
    source.push_to(&mut frame);
    dst.push_to(&mut frame);
    push_all(&mut frame, body.as_slice());
    frame
}

/// Encode a general membership query as a whole Ethernet frame.
pub fn encode_general_query(family: Family, src_mac: [u8; 6], source: IpAddr) -> (frame: Vec<u8>)
    ensures
        frame@ == general_query(family, src_mac@, source),
{
    match (family, source) {
        (Family::Igmp, IpAddr::V4(a)) => encode_igmp_query(src_mac, a),
        (Family::Mld, IpAddr::V6(a)) => encode_mld_query(src_mac, a),
        // Family/address mismatch: nothing sensible to send.
        _ => Vec::new(),
    }
}

/// Is an address of the family?
pub open spec fn fits(family: Family, source: IpAddr) -> bool {
    (family == Family::Igmp && source is V4) || (family == Family::Mld && source is V6)
}

proof fn lemma_v6_reads_back(b: Seq<u8>, at: int, a: Ipv6)
    requires
        0 <= at,
        at + 16 <= b.len(),
        b.subrange(at, at + 16) == crate::ip::v6_bytes(a),
    ensures
        v6_at(b, at) == IpAddr::V6(a),
{
    let t = crate::ip::v6_bytes(a);
    let w = b.subrange(at, at + 16);
    let h1 = (a.hi / 0x1_0000_0000) as u32;
    let h0 = (a.hi % 0x1_0000_0000) as u32;
    let l1 = (a.lo / 0x1_0000_0000) as u32;
    let l0 = (a.lo % 0x1_0000_0000) as u32;
    assert(b.subrange(at, at + 4) =~= w.subrange(0, 4));
    assert(b.subrange(at + 4, at + 8) =~= w.subrange(4, 8));
    assert(b.subrange(at + 8, at + 12) =~= w.subrange(8, 12));
    assert(b.subrange(at + 12, at + 16) =~= w.subrange(12, 16));
    assert(t.subrange(0, 4) =~= crate::bytes::be32(h1));
    assert(t.subrange(4, 8) =~= crate::bytes::be32(h0));
    assert(t.subrange(8, 12) =~= crate::bytes::be32(l1));
    assert(t.subrange(12, 16) =~= crate::bytes::be32(l0));
    crate::bytes::lemma_word32(b, at, h1);
    crate::bytes::lemma_word32(b, at + 4, h0);
    crate::bytes::lemma_word32(b, at + 8, l1);
    crate::bytes::lemma_word32(b, at + 12, l0);
}

proof fn lemma_framed(head: Seq<u8>, src_mac: Seq<u8>, kind: Seq<u8>, rest: Seq<u8>)
    requires
        head.len() == 6,
        src_mac.len() == 6,
        kind.len() == 2,
    ensures
        ({
            let f = head + src_mac + kind + rest;
            f.subrange(12, 14) == kind && f.skip(14) == rest
        }),
{
    let f = head + src_mac + kind + rest;
    assert(f.subrange(12, 14) =~= kind);
    assert(f.skip(14) =~= rest);
}

proof fn lemma_igmp_query_parts(source: Ipv4)
    ensures
        igmp_query().len() == 8,
        igmp_query()[0] == 0x11,
        igmp_query_ip(source).len() == 20,
        igmp_query_ip(source)[0] == 0x45,
        igmp_query_ip(source)[9] == 2,
        igmp_query_ip(source).subrange(12, 16) == crate::bytes::be32(source.bits),
{
    assert(igmp_query_ip(source).subrange(12, 16) =~= crate::bytes::be32(source.bits));
}

#[verifier::spinoff_prover]
proof fn lemma_igmp_query_parses(f: Seq<u8>, ip: Seq<u8>, query: Seq<u8>, source: Ipv4)
    requires
        f.len() == 42,
        f.subrange(12, 14) == crate::bytes::be16(0x0800),
        f.skip(14) == ip + query,
        ip.len() == 20,
        ip[0] == 0x45,
        ip[9] == 2,
        ip.subrange(12, 16) == crate::bytes::be32(source.bits),
        query.len() == 8,
        query[0] == 0x11,
    ensures
        messages(Family::Igmp, f) == seq![Message::Query { source: IpAddr::V4(source) }],
{
    crate::bytes::lemma_word16(f, 12, 0x0800);
    assert(forall|i: int| 0 <= i < 28 ==> f[14 + i] == #[trigger] f.skip(14)[i]);
    assert(f[14] == f.skip(14)[0] && f[23] == f.skip(14)[9]);
    assert(f.subrange(26, 30) =~= f.skip(14).subrange(12, 16));
    assert(f.skip(14).subrange(12, 16) =~= ip.subrange(12, 16));
    crate::bytes::lemma_word32(f, 26, source.bits);
    assert(f.skip(34) =~= f.skip(14).skip(20));
    assert(f.skip(14).skip(20) =~= query);
}

proof fn lemma_mld_query_parts(source: Ipv6)
    ensures
        mld_query(source).len() == 24,
        mld_query(source)[0] == 130,
        crate::ip::v6_bytes(source).len() == 16,
{
}

#[verifier::spinoff_prover]
proof fn lemma_mld_query_parses(f: Seq<u8>, front: Seq<u8>, query: Seq<u8>, source: Ipv6)
    requires
        f.subrange(12, 14) == crate::bytes::be16(0x86dd),
        f.skip(14) == front + crate::ip::v6_bytes(source) + crate::ip::v6_bytes(all_nodes())
            + query,
        front.len() == 8,
        front[0] == 0x60,
        front[6] == 58,
        crate::ip::v6_bytes(source).len() == 16,
        crate::ip::v6_bytes(all_nodes()).len() == 16,
        query.len() == 24,
        query[0] == 130,
        f.len() == 78,
    ensures
        messages(Family::Mld, f) == seq![Message::Query { source: IpAddr::V6(source) }],
{
    crate::bytes::lemma_word16(f, 12, 0x86dd);
    assert(f[14] == f.skip(14)[0] && f[20] == f.skip(14)[6]);
    assert(f.subrange(22, 38) =~= f.skip(14).subrange(8, 24));
    assert(f.skip(14).subrange(8, 24) =~= crate::ip::v6_bytes(source));
    lemma_v6_reads_back(f, 22, source);
    assert(f.skip(54) =~= f.skip(14).skip(40));
    assert(f.skip(14).skip(40) =~= query);
}

/// A general query that one querier sends parses as a query from its source
/// address at every other one, in either family.
pub proof fn lemma_query_parses_back(family: Family, src_mac: Seq<u8>, source: IpAddr)
    requires
        src_mac.len() == 6,
        fits(family, source),
    ensures
        messages(family, general_query(family, src_mac, source)) == seq![Message::Query { source }],
{
    let f = general_query(family, src_mac, source);
    match source {
        IpAddr::V4(a) => {
            let head = seq![1u8, 0u8, 0x5eu8, 0u8, 0u8, 1u8];
            let kind = seq![8u8, 0u8];
            let ip = igmp_query_ip(a);
            let query = igmp_query();
            lemma_igmp_query_parts(a);
            lemma_framed(head, src_mac, kind, ip + query);
            assert(f =~= head + src_mac + kind + (ip + query));
            assert(kind =~= crate::bytes::be16(0x0800));
            lemma_igmp_query_parses(f, ip, query, a);
        },
        IpAddr::V6(a) => {
            let head = seq![0x33u8, 0x33u8, 0u8, 0u8, 0u8, 1u8];
            let kind = seq![0x86u8, 0xddu8];
            let front = seq![0x60u8, 0u8, 0u8, 0u8, 0u8, 24u8, 58u8, 1u8];
            let query = mld_query(a);
            let rest = front + crate::ip::v6_bytes(a) + crate::ip::v6_bytes(all_nodes()) + query;
            lemma_mld_query_parts(a);
            lemma_mld_query_parts(all_nodes());
            lemma_framed(head, src_mac, kind, rest);
            assert(f =~= head + src_mac + kind + rest);
            assert(kind =~= crate::bytes::be16(0x86dd));
            lemma_mld_query_parses(f, front, query, a);
        },
    }
}

// ----------------------------------------------------------------- config

#[derive(Debug, Clone)]
pub struct VlanConfig {
    pub disabled: bool,
    pub fast_leave: bool,
    pub querier: bool,
    pub querier_address: Option<IpAddr>,
    pub static_mrouters: Vec<String>,
}

impl Default for VlanConfig {
    fn default() -> (r: VlanConfig)
        ensures
            !r.disabled,
            !r.fast_leave,
            !r.querier,
            r.querier_address is None,
            r.static_mrouters@.len() == 0,
    {
        VlanConfig {
            disabled: false,
            fast_leave: false,
            querier: false,
            querier_address: None,
            static_mrouters: Vec::new(),
        }
    }
}

pub struct Config {
    pub disabled: bool,
    /// Default 2.
    pub robustness: u8,
    pub vlans: OrdMap<u16, VlanConfig>,
    /// In milliseconds; default 125s.
    pub query_interval: u64,
    /// Grace after a leave before the member is dropped (unless
    /// fast-leave drops it immediately), in milliseconds. Default 2s.
    pub last_member_interval: u64,
}

impl Default for Config {
    fn default() -> (r: Config)
        ensures
            r.wf(),
            !r.disabled,
            r.robustness == 2,
            r.vlans.entries@.len() == 0,
            r.query_interval == 125_000,
            r.last_member_interval == 2_000,
    {
        Config {
            disabled: false,
            robustness: 2,
            vlans: OrdMap::new(),
            query_interval: 125_000,
            last_member_interval: 2_000,
        }
    }
}

impl Config {
    /// The table is in order and the timers can be counted.
    pub open spec fn wf(&self) -> bool {
        self.vlans.wf() && self.query_interval * 255 + 10_000 <= u64::MAX
    }

    /// How long group membership lasts without a refresh.
    pub open spec fn membership_hold(&self) -> int {
        self.query_interval * self.robustness + 10_000
    }

    /// How long a dynamic mrouter / foreign querier stays valid.
    pub open spec fn querier_hold(&self) -> int {
        self.query_interval * 2 + 10_000
    }

    /// Is snooping on for a VLAN?
    pub open spec fn enabled(&self, vlan: u16) -> bool {
        !self.disabled && !(self.vlans@.dom().contains(vlan) && self.vlans@[vlan].disabled)
    }

    pub open spec fn fast_leave(&self, vlan: u16) -> bool {
        self.vlans@.dom().contains(vlan) && self.vlans@[vlan].fast_leave
    }

    pub open spec fn querier(&self, vlan: u16) -> bool {
        self.vlans@.dom().contains(vlan) && self.vlans@[vlan].querier
    }

    pub open spec fn querier_address(&self, vlan: u16) -> Option<IpAddr> {
        if self.vlans@.dom().contains(vlan) {
            self.vlans@[vlan].querier_address
        } else {
            None
        }
    }

    pub open spec fn static_mrouters(&self, vlan: u16) -> Seq<Seq<char>> {
        if self.vlans@.dom().contains(vlan) {
            self.vlans@[vlan].static_mrouters.deep_view()
        } else {
            Seq::empty()
        }
    }

    /// Our querier source address for a VLAN.
    pub open spec fn source(&self, family: Family, vlan: u16) -> IpAddr {
        match (family, self.querier_address(vlan)) {
            (_, Some(address)) => address,
            (Family::Igmp, None) => IpAddr::V4(Ipv4 { bits: 0 }),
            (Family::Mld, None) => IpAddr::V6(Ipv6 { hi: 0, lo: 0 }),
        }
    }

    fn vlan_enabled(&self, vlan: u16) -> (r: bool)
        requires
            self.wf(),
        ensures
            r == self.enabled(vlan),
    {
        let off = match self.vlans.get(&vlan) {
            Some(v) => v.disabled,
            None => false,
        };
        !self.disabled && !off
    }

    /// Our querier source address for a VLAN.
    fn querier_source(&self, family: Family, vlan: u16) -> (r: IpAddr)
        requires
            self.wf(),
        ensures
            r == self.source(family, vlan),
    {
        let address = match self.vlans.get(&vlan) {
            Some(v) => v.querier_address,
            None => None,
        };
        match (family, address) {
            (_, Some(address)) => address,
            (Family::Igmp, None) => IpAddr::V4(Ipv4 { bits: 0 }),
            (Family::Mld, None) => IpAddr::V6(Ipv6 { hi: 0, lo: 0 }),
        }
    }

    fn hold_members(&self) -> (r: u64)
        requires
            self.wf(),
        ensures
            r == self.membership_hold(),
    {
        assert(self.query_interval * self.robustness <= self.query_interval * 255)
            by (nonlinear_arith)
            requires
                self.robustness <= 255,
        ;
        self.query_interval * self.robustness as u64 + 10_000
    }

    fn hold_querier(&self) -> (r: u64)
        requires
            self.wf(),
        ensures
            r == self.querier_hold(),
    {
        self.query_interval * 2 + 10_000
    }
}

// ------------------------------------------------------------------ state

/// One member port of a group. Moments are in milliseconds.
#[derive(Debug, Clone, Copy)]
pub struct Member {
    pub last_report: u64,
    pub version: u8,
    /// A leave was heard; the member drops when this expires.
    pub pending_leave: Option<u64>,
}

pub struct VlanState {
    pub groups: OrdMap<IpAddr, OrdMap<String, Member>>,
    /// Dynamic mrouters (ports where queries were heard).
    pub dyn_mrouters: OrdMap<String, u64>,
    /// Another querier with a lower address is active.
    pub other_querier: Option<(IpAddr, u64)>,
    pub last_query_tx: Option<u64>,
    /// What was last pushed, for change detection.
    pub pushed_groups: OrdMap<IpAddr, TextSet>,
    pub pushed_mrouters: Option<(bool, TextSet)>,
}

/// What is known of a VLAN, as mathematical values.
#[verifier::ext_equal]
pub struct VlanModel {
    pub groups: Map<IpAddr, Map<Seq<char>, Member>>,
    pub dyn_mrouters: Map<Seq<char>, u64>,
    pub other_querier: Option<(IpAddr, u64)>,
    pub last_query_tx: Option<u64>,
    pub pushed_groups: Map<IpAddr, Set<Seq<char>>>,
    pub pushed_mrouters: Option<(bool, Set<Seq<char>>)>,
}

/// A table of tables as a map of maps.
pub open spec fn groups_model(m: OrdMap<IpAddr, OrdMap<String, Member>>) -> Map<
    IpAddr,
    Map<Seq<char>, Member>,
> {
    Map::new(|g: IpAddr| m@.dom().contains(g), |g: IpAddr| m@[g]@)
}

/// A table of sets as a map of sets.
pub open spec fn sets_model(m: OrdMap<IpAddr, TextSet>) -> Map<IpAddr, Set<Seq<char>>> {
    Map::new(|g: IpAddr| m@.dom().contains(g), |g: IpAddr| m@[g]@.dom())
}

pub open spec fn push_model(p: Option<(bool, TextSet)>) -> Option<(bool, Set<Seq<char>>)> {
    match p {
        Some(p) => Some((p.0, p.1@.dom())),
        None => None,
    }
}

/// Every inner table is in order.
pub open spec fn inner_wf<T>(m: OrdMap<IpAddr, OrdMap<String, T>>) -> bool {
    m.wf() && forall|g: IpAddr| #[trigger] m@.dom().contains(g) ==> m@[g].wf()
}

/// A VLAN of which nothing is known.
pub open spec fn blank() -> VlanModel {
    VlanModel {
        groups: Map::empty(),
        dyn_mrouters: Map::empty(),
        other_querier: None,
        last_query_tx: None,
        pushed_groups: Map::empty(),
        pushed_mrouters: None,
    }
}

impl VlanState {
    pub open spec fn wf(&self) -> bool {
        &&& inner_wf(self.groups)
        &&& self.dyn_mrouters.wf()
        &&& inner_wf(self.pushed_groups)
        &&& self.pushed_mrouters matches Some(p) ==> p.1.wf()
    }

    pub open spec fn model(&self) -> VlanModel {
        VlanModel {
            groups: groups_model(self.groups),
            dyn_mrouters: self.dyn_mrouters@,
            other_querier: self.other_querier,
            last_query_tx: self.last_query_tx,
            pushed_groups: sets_model(self.pushed_groups),
            pushed_mrouters: push_model(self.pushed_mrouters),
        }
    }

    fn new() -> (r: VlanState)
        ensures
            r.wf(),
            r.model() == blank(),
    {
        let r = VlanState {
            groups: OrdMap::new(),
            dyn_mrouters: OrdMap::new(),
            other_querier: None,
            last_query_tx: None,
            pushed_groups: OrdMap::new(),
            pushed_mrouters: None,
        };
        assert(r.model() =~= blank());
        r
    }
}

// --------------------------------------------------------------- messages

/// A VLAN after a message.
pub open spec fn applied(
    m: VlanModel,
    config: Config,
    family: Family,
    vlan: u16,
    port: Seq<char>,
    message: Message,
    now: u64,
) -> VlanModel {
    match message {
        Message::Report { group, version } => {
            let members = if m.groups.dom().contains(group) {
                m.groups[group]
            } else {
                Map::empty()
            };
            VlanModel {
                groups: m.groups.insert(
                    group,
                    members.insert(
                        port,
                        Member { last_report: now, version, pending_leave: None },
                    ),
                ),
                ..m
            }
        },
        Message::Leave { group } => if !m.groups.dom().contains(group) {
            m
        } else if config.fast_leave(vlan) {
            VlanModel {
                groups: m.groups.insert(group, m.groups[group].remove(port)),
                ..m
            }
        } else if m.groups[group].dom().contains(port) {
            VlanModel {
                groups: m.groups.insert(
                    group,
                    m.groups[group].insert(
                        port,
                        Member { pending_leave: Some(now), ..m.groups[group][port] },
                    ),
                ),
                ..m
            }
        } else {
            m
        },
        // Queries come from routers: the ingress port is an mrouter.
        // Election: the lower source address stays querier; ours
        // yields when theirs is lower.
        Message::Query { source } => VlanModel {
            dyn_mrouters: m.dyn_mrouters.insert(port, now),
            other_querier: if crate::ip::ip_before(source, config.source(family, vlan)) {
                Some((source, now))
            } else {
                m.other_querier
            },
            ..m
        },
    }
}

impl VlanState {
    /// Put a group's members.
    fn put_group(&mut self, group: IpAddr, members: OrdMap<String, Member>)
        requires
            old(self).wf(),
            members.wf(),
        ensures
            final(self).wf(),
            final(self).model() == (VlanModel {
                groups: old(self).model().groups.insert(group, members@),
                ..old(self).model()
            }),
    {
        let ghost before = self.model().groups;
        let ghost had = self.groups@;
        self.groups.insert(group, members);
        proof {
            assert forall|g: IpAddr| #[trigger] self.groups@.dom().contains(g) implies self.groups@[g].wf()
                by {
                if g != group {
                    assert(had.dom().contains(g));
                }
            }
            assert(self.model().groups =~= before.insert(group, members@));
        }
    }

    /// Take a group's members out.
    fn take_group(&mut self, group: IpAddr) -> (r: Option<OrdMap<String, Member>>)
        requires
            old(self).wf(),
        ensures
            final(self).wf(),
            final(self).model() == (VlanModel {
                groups: old(self).model().groups.remove(group),
                ..old(self).model()
            }),
            match r {
                Some(members) => members.wf() && old(self).model().groups.dom().contains(group)
                    && members@ == old(self).model().groups[group],
                None => !old(self).model().groups.dom().contains(group),
            },
    {
        let ghost before = self.model().groups;
        let ghost had = self.groups@;
        let r = self.groups.remove(&group);
        proof {
            assert forall|g: IpAddr| #[trigger] self.groups@.dom().contains(g) implies self.groups@[g].wf()
                by {
                assert(had.dom().contains(g));
            }
            assert(self.model().groups =~= before.remove(group));
        }
        r
    }

    fn apply(
        &mut self,
        config: &Config,
        family: Family,
        vlan: u16,
        port: &str,
        message: Message,
        now: u64,
    )
        requires
            old(self).wf(),
            config.wf(),
        ensures
            final(self).wf(),
            final(self).model() == applied(
                old(self).model(),
                *config,
                family,
                vlan,
                port@,
                message,
                now,
            ),
    {
        let ghost before = self.model();
        match message {
            Message::Report { group, version } => {
                let mut members = match self.take_group(group) {
                    Some(members) => members,
                    None => OrdMap::new(),
                };
                let name = port.to_owned();
                members.insert(name, Member { last_report: now, version, pending_leave: None });
                self.put_group(group, members);
                assert(self.model().groups =~= applied(
                    before,
                    *config,
                    family,
                    vlan,
                    port@,
                    message,
                    now,
                ).groups);
            },
            Message::Leave { group } => {
                let fast_leave = match config.vlans.get(&vlan) {
                    Some(v) => v.fast_leave,
                    None => false,
                };
                match self.take_group(group) {
                    Some(members) => {
                        let mut members = members;
                        let name = port.to_owned();
                        if fast_leave {
                            members.remove(&name);
                        } else {
                            let waits = match members.get(&name) {
                                Some(m) => Some(
                                    Member {
                                        last_report: m.last_report,
                                        version: m.version,
                                        pending_leave: Some(now),
                                    },
                                ),
                                None => None,
                            };
                            match waits {
                                Some(m) => {
                                    members.insert(name, m);
                                },
                                None => {},
                            }
                        }
                        self.put_group(group, members);
                        assert(self.model().groups =~= applied(
                            before,
                            *config,
                            family,
                            vlan,
                            port@,
                            message,
                            now,
                        ).groups);
                    },
                    None => {
                        assert(self.model().groups =~= before.groups);
                    },
                }
            },
            Message::Query { source } => {
                let name = port.to_owned();
                self.dyn_mrouters.insert(name, now);
                let ours = config.querier_source(family, vlan);
                if source.is_before(&ours) {
                    self.other_querier = Some((source, now));
                }
            },
        }
    }
}

// ----------------------------------------------------------------- timers

/// The mrouter set of a VLAN (static + live dynamic).
pub open spec fn mrouters(m: VlanModel, config: Config, vlan: u16, now: u64) -> Set<Seq<char>> {
    Set::new(
        |p: Seq<char>|
            config.static_mrouters(vlan).contains(p) || (m.dyn_mrouters.dom().contains(p)
                && crate::clock::since(now, m.dyn_mrouters[p]) < config.querier_hold()),
    )
}

/// Does a member stay? It goes when its leave or its membership runs out.
pub open spec fn member_stays(config: Config, now: u64) -> spec_fn(Seq<char>, Member) -> bool {
    |p: Seq<char>, m: Member|
        !(m.pending_leave matches Some(at) && crate::clock::since(now, at)
            >= config.last_member_interval) && crate::clock::since(now, m.last_report)
            < config.membership_hold()
}

/// Does a dynamic mrouter stay?
pub open spec fn mrouter_stays(config: Config, now: u64) -> spec_fn(Seq<char>, u64) -> bool {
    |p: Seq<char>, at: u64| crate::clock::since(now, at) < config.querier_hold()
}

/// A group's members that stay.
pub open spec fn live_members(
    members: Map<Seq<char>, Member>,
    config: Config,
    now: u64,
) -> Map<Seq<char>, Member> {
    crate::ordmap::kept(members, member_stays(config, now))
}

/// Does any member of a group stay?
pub open spec fn any_member(members: Map<Seq<char>, Member>) -> bool {
    exists|p: Seq<char>| #[trigger] members.dom().contains(p)
}

/// The groups with members that stay.
pub open spec fn live_groups(
    groups: Map<IpAddr, Map<Seq<char>, Member>>,
    config: Config,
    now: u64,
) -> Map<IpAddr, Map<Seq<char>, Member>> {
    Map::new(
        |g: IpAddr| groups.dom().contains(g) && any_member(live_members(groups[g], config, now)),
        |g: IpAddr| live_members(groups[g], config, now),
    )
}

/// A disabled VLAN sheds all its learned state.
pub open spec fn shed(m: VlanModel, enabled: bool) -> VlanModel {
    if enabled {
        m
    } else {
        VlanModel {
            groups: Map::empty(),
            dyn_mrouters: Map::empty(),
            other_querier: None,
            ..m
        }
    }
}

/// A VLAN without the members, mrouters and foreign querier that have run
/// out.
pub open spec fn expired(m: VlanModel, config: Config, vlan: u16, now: u64) -> VlanModel {
    let s = shed(m, config.enabled(vlan));
    VlanModel {
        groups: live_groups(s.groups, config, now),
        dyn_mrouters: crate::ordmap::kept(s.dyn_mrouters, mrouter_stays(config, now)),
        other_querier: if s.other_querier matches Some(q) && crate::clock::since(now, q.1)
            >= config.querier_hold() {
            None
        } else {
            s.other_querier
        },
        ..s
    }
}

/// The wanted outputs of each group: its members plus the mrouters.
pub open spec fn wanted_groups(
    groups: Map<IpAddr, Map<Seq<char>, Member>>,
    routers: Set<Seq<char>>,
) -> Map<IpAddr, Set<Seq<char>>> {
    Map::new(
        |g: IpAddr| groups.dom().contains(g),
        |g: IpAddr| groups[g].dom().union(routers),
    )
}

/// The unknown-multicast scope: restricted to the mrouter set only when the
/// VLAN actually has one (or runs our querier).
pub open spec fn scope(
    routers: Set<Seq<char>>,
    config: Config,
    vlan: u16,
) -> (bool, Set<Seq<char>>) {
    if config.enabled(vlan) && (routers != Set::<Seq<char>>::empty() || config.querier(vlan)) {
        (true, routers)
    } else {
        (false, Set::empty())
    }
}

/// Is a general query due? The local querier sends them at the query
/// interval, unless a lower-addressed querier is active.
pub open spec fn query_due(m: VlanModel, config: Config, vlan: u16, now: u64) -> bool {
    &&& config.enabled(vlan)
    &&& config.querier(vlan)
    &&& m.other_querier is None
    &&& m.last_query_tx matches Some(at) ==> crate::clock::since(now, at) >= config.query_interval
}

/// A VLAN after an evaluation pass.
pub open spec fn vlan_stepped(m: VlanModel, config: Config, vlan: u16, now: u64) -> VlanModel {
    let routers = mrouters(m, config, vlan, now);
    let e = expired(m, config, vlan, now);
    VlanModel {
        pushed_groups: wanted_groups(e.groups, routers),
        pushed_mrouters: Some(scope(routers, config, vlan)),
        last_query_tx: if query_due(e, config, vlan, now) {
            Some(now)
        } else {
            e.last_query_tx
        },
        ..e
    }
}

// ----------------------------------------------------------------- pushes

/// One (vlan, group)'s wanted output ports (members plus mrouters);
/// `remove` = the group aged out entirely.
#[derive(Debug, Clone, PartialEq, Eq)]
pub struct GroupUpdate {
    pub vlan: u16,
    pub group: IpAddr,
    pub ports: Vec<String>,
    pub remove: bool,
}

/// A VLAN's unknown-multicast scope: restricted to `ports` (the
/// mrouter set) or back to flood-all.
#[derive(Debug, Clone, PartialEq, Eq)]
pub struct MrouterUpdate {
    pub vlan: u16,
    pub restrict: bool,
    pub ports: Vec<String>,
}

/// Is a group's push the one that was made last?
pub open spec fn pushed_as(
    wanted: Map<IpAddr, Set<Seq<char>>>,
    pushed: Map<IpAddr, Set<Seq<char>>>,
    g: IpAddr,
) -> bool {
    pushed.dom().contains(g) && pushed[g] == wanted[g]
}

/// The order of group updates: new outputs before removals, each by
/// address.
pub open spec fn update_before(a: GroupUpdate, b: GroupUpdate) -> bool {
    (!a.remove && b.remove) || (a.remove == b.remove && crate::ip::ip_before(a.group, b.group))
}

/// An update is right: it says what is wanted of a group and was not
/// pushed, or that a pushed group is no longer wanted.
pub open spec fn is_update(
    u: GroupUpdate,
    vlan: u16,
    wanted: Map<IpAddr, Set<Seq<char>>>,
    pushed: Map<IpAddr, Set<Seq<char>>>,
) -> bool {
    &&& u.vlan == vlan
    &&& if u.remove {
        pushed.dom().contains(u.group) && !wanted.dom().contains(u.group) && u.ports@.len() == 0
    } else {
        wanted.dom().contains(u.group) && !pushed_as(wanted, pushed, u.group)
            && crate::ordmap::lists(u.ports.deep_view(), wanted[u.group])
    }
}

/// Some update is about a group.
pub open spec fn has_update(r: Seq<GroupUpdate>, g: IpAddr, remove: bool) -> bool {
    exists|i: int| 0 <= i < r.len() && (#[trigger] r[i]).group == g && r[i].remove == remove
}

/// The updates that turn what was pushed into what is wanted, each once and
/// in order.
pub open spec fn are_updates(
    r: Seq<GroupUpdate>,
    vlan: u16,
    wanted: Map<IpAddr, Set<Seq<char>>>,
    pushed: Map<IpAddr, Set<Seq<char>>>,
) -> bool {
    &&& forall|i: int, j: int|
        0 <= i < j < r.len() ==> update_before(#[trigger] r[i], #[trigger] r[j])
    &&& forall|i: int| 0 <= i < r.len() ==> is_update(#[trigger] r[i], vlan, wanted, pushed)
    &&& forall|g: IpAddr| #[trigger]
        wanted.dom().contains(g) && !pushed_as(wanted, pushed, g) ==> has_update(r, g, false)
    &&& forall|g: IpAddr| #[trigger]
        pushed.dom().contains(g) && !wanted.dom().contains(g) ==> has_update(r, g, true)
}

/// What an evaluation pass puts out for one VLAN.
pub struct VlanOutput {
    pub groups: Vec<GroupUpdate>,
    pub mrouters: Option<MrouterUpdate>,
    /// Query frames to transmit: (egress port, frame).
    pub queries: Vec<(String, Vec<u8>)>,
}

/// The scope push: on change only.
pub open spec fn is_scope_push(
    r: Option<MrouterUpdate>,
    vlan: u16,
    was: Option<(bool, Set<Seq<char>>)>,
    next: (bool, Set<Seq<char>>),
) -> bool {
    match r {
        Some(u) => was != Some(next) && u.vlan == vlan && u.restrict == next.0
            && crate::ordmap::lists(u.ports.deep_view(), next.1),
        None => was == Some(next),
    }
}

/// One frame goes out each port of a list.
pub open spec fn goes_out(
    out: Seq<(String, Vec<u8>)>,
    ports: Seq<Seq<char>>,
    frame: Seq<u8>,
) -> bool {
    out.len() == ports.len() && forall|i: int|
        0 <= i < out.len() ==> (#[trigger] out[i]).0@ == ports[i] && out[i].1@ == frame
}

/// The ports that queries go out of.
pub open spec fn ports_at(map: Map<u16, Vec<String>>, vlan: u16) -> Seq<Seq<char>> {
    if map.dom().contains(vlan) {
        map[vlan].deep_view()
    } else {
        Seq::empty()
    }
}

/// What an evaluation pass puts out for a VLAN.
pub open spec fn is_output(
    r: VlanOutput,
    m: VlanModel,
    config: Config,
    family: Family,
    mac: Seq<u8>,
    vlan_ports: Map<u16, Vec<String>>,
    vlan: u16,
    now: u64,
) -> bool {
    let routers = mrouters(m, config, vlan, now);
    let e = expired(m, config, vlan, now);
    &&& are_updates(r.groups@, vlan, wanted_groups(e.groups, routers), m.pushed_groups)
    &&& is_scope_push(r.mrouters, vlan, m.pushed_mrouters, scope(routers, config, vlan))
    &&& if query_due(e, config, vlan, now) {
        goes_out(
            r.queries@,
            ports_at(vlan_ports, vlan),
            general_query(family, mac, config.source(family, vlan)),
        )
    } else {
        r.queries@.len() == 0
    }
}

/// The names under which a table holds something.
fn key_set<T>(m: &OrdMap<String, T>) -> (r: TextSet)
    requires
        m.wf(),
    ensures
        r.wf(),
        r@.dom() == m@.dom(),
{
    let mut r: TextSet = OrdMap::new();
    let mut i: usize = 0;
    while i < m.entries.len()
        invariant
            m.wf(),
            r.wf(),
            i <= m.entries@.len(),
            forall|k: Seq<char>| #[trigger]
                r@.dom().contains(k) <==> crate::ordmap::has_key(m.entries@, i as int, k),
        decreases m.entries@.len() - i,
    {
        r.insert(m.entries[i].0.clone(), ());
        proof {
            crate::ordmap::lemma_has_key_next(m.entries@, i as int);
        }
        i = i + 1;
    }
    assert(r@.dom() =~= m@.dom());
    r
}

impl VlanState {
    /// The current mrouter set of a VLAN (static + live dynamic).
    fn mrouter_set(&self, config: &Config, vlan: u16, now: u64) -> (r: TextSet)
        requires
            self.wf(),
            config.wf(),
        ensures
            r.wf(),
            r@.dom() == mrouters(self.model(), *config, vlan, now),
    {
        let hold: u64 = config.hold_querier();
        let mut r: TextSet = match config.vlans.get(&vlan) {
            Some(v) => OrdMap::of_names(&v.static_mrouters),
            None => OrdMap::new(),
        };
        let ghost statics = config.static_mrouters(vlan);
        assert forall|k: Seq<char>| #[trigger] r@.dom().contains(k) <==> statics.contains(k) by {}
        let mut i: usize = 0;
        while i < self.dyn_mrouters.entries.len()
            invariant
                self.wf(),
                r.wf(),
                hold == config.querier_hold(),
                i <= self.dyn_mrouters.entries@.len(),
                forall|k: Seq<char>| #[trigger]
                    r@.dom().contains(k) <==> (statics.contains(k) || (crate::ordmap::has_key(
                        self.dyn_mrouters.entries@,
                        i as int,
                        k,
                    ) && crate::clock::since(now, self.dyn_mrouters@[k])
                        < config.querier_hold())),
            decreases self.dyn_mrouters.entries@.len() - i,
        {
            proof {
                crate::ordmap::lemma_has_key_next(self.dyn_mrouters.entries@, i as int);
                crate::ordmap::lemma_map_of_entry(self.dyn_mrouters.entries@, i as int);
            }
            if elapsed(now, self.dyn_mrouters.entries[i].1) < hold {
                r.insert(self.dyn_mrouters.entries[i].0.clone(), ());
            }
            i = i + 1;
        }
        assert(r@.dom() =~= mrouters(self.model(), *config, vlan, now));
        r
    }

    /// Drop the group members that have run out, and the groups left empty.
    fn expire_groups(&mut self, config: &Config, now: u64)
        requires
            old(self).wf(),
            config.wf(),
        ensures
            final(self).wf(),
            final(self).model() == (VlanModel {
                groups: live_groups(old(self).model().groups, *config, now),
                ..old(self).model()
            }),
    {
        let hold: u64 = config.hold_members();
        let last: u64 = config.last_member_interval;
        let ghost before = self.groups.entries@;
        let ghost groups = self.model().groups;
        let ghost first = *self;
        assert forall|j: int| 0 <= j < before.len() implies (#[trigger] before[j]).1.wf() by {
            crate::ordmap::lemma_map_of_entry(before, j);
            assert(self.groups@.dom().contains(before[j].0));
        }
        let mut i: usize = 0;
        while i < self.groups.entries.len()
            invariant
                crate::ordmap::rising(before),
                i <= before.len() == self.groups.entries@.len(),
                hold == config.membership_hold(),
                last == config.last_member_interval,
                forall|j: int| 0 <= j < before.len() ==> (#[trigger] before[j]).1.wf(),
                self.dyn_mrouters == first.dyn_mrouters,
                self.other_querier == first.other_querier,
                self.last_query_tx == first.last_query_tx,
                self.pushed_groups == first.pushed_groups,
                self.pushed_mrouters == first.pushed_mrouters,
                forall|j: int|
                    0 <= j < before.len() ==> (#[trigger] self.groups.entries@[j]).0 == before[j].0
                        && self.groups.entries@[j].1.wf(),
                forall|j: int|
                    0 <= j < i ==> (#[trigger] self.groups.entries@[j]).1@ == live_members(
                        before[j].1@,
                        *config,
                        now,
                    ),
                forall|j: int|
                    i <= j < before.len() ==> (#[trigger] self.groups.entries@[j]).1
                        == before[j].1,
            decreases before.len() - i,
        {
            let ghost here = self.groups.entries@;
            let keep = |p: &String, m: &Member| -> (r: bool)
                ensures
                    r == member_stays(*config, now)(p@, *m),
                {
                    let left = match m.pending_leave {
                        Some(at) => elapsed(now, at) >= last,
                        None => false,
                    };
                    !left && elapsed(now, m.last_report) < hold
                };
            self.groups.entries[i].1.retain(keep, Ghost(member_stays(*config, now)));
            proof {
                assert forall|j: int| 0 <= j < before.len() && j != i implies (
                #[trigger] self.groups.entries@[j]) == here[j] by {}
            }
            i = i + 1;
        }
        let ghost mid = self.groups.entries@;
        proof {
            assert forall|a: int, b: int| 0 <= a < b < mid.len() implies IpAddr::before(
                (#[trigger] mid[a]).0@,
                (#[trigger] mid[b]).0@,
            ) by {
                assert(IpAddr::before(before[a].0@, before[b].0@));
            }
        }
        let ghost middle = self.groups@;
        let some = |g: &IpAddr, ms: &OrdMap<String, Member>| -> (r: bool)
            ensures
                r == nonempty()(g@, *ms),
            { ms.entries.len() > 0 };
        self.groups.retain(some, Ghost(nonempty()));
        proof {
            let want = live_groups(groups, *config, now);
            let got = self.model().groups;
            assert forall|g: IpAddr| #[trigger] middle.dom().contains(g) <==> groups.dom().contains(
                g,
            ) by {
                if middle.dom().contains(g) {
                    let j = choose|j: int| 0 <= j < mid.len() && (#[trigger] mid[j]).0@ == g;
                    assert(before[j].0@ == g);
                }
                if groups.dom().contains(g) {
                    let j = choose|j: int| 0 <= j < before.len() && (#[trigger] before[j]).0@ == g;
                    assert(mid[j].0@ == g);
                }
            }
            assert forall|g: IpAddr| #[trigger] middle.dom().contains(g) implies middle[g]@
                == live_members(groups[g], *config, now) && middle[g].wf() && (
            middle[g].entries@.len() > 0 <==> any_member(middle[g]@)) by {
                let j = choose|j: int| 0 <= j < mid.len() && (#[trigger] mid[j]).0@ == g;
                crate::ordmap::lemma_map_of_entry(mid, j);
                assert(before[j].0@ == g);
                crate::ordmap::lemma_map_of_entry(before, j);
                let es = middle[g].entries@;
                if es.len() > 0 {
                    crate::ordmap::lemma_map_of_entry(es, 0);
                    assert(middle[g]@.dom().contains(es[0].0@));
                }
                if any_member(middle[g]@) {
                    let p = choose|p: Seq<char>| #[trigger] middle[g]@.dom().contains(p);
                    let x = choose|x: int| 0 <= x < es.len() && (#[trigger] es[x]).0@ == p;
                    assert(es.len() > 0);
                }
            }
            assert forall|g: IpAddr| #[trigger] self.groups@.dom().contains(g) implies self.groups@[g].wf()
                by {
                assert(middle.dom().contains(g));
            }
            assert forall|g: IpAddr| #[trigger] got.dom().contains(g) <==> want.dom().contains(g) by {
                assert(middle.dom().contains(g) <==> groups.dom().contains(g));
            }
            assert forall|g: IpAddr| #[trigger] got.dom().contains(g) implies got[g] == want[g] by {
                assert(middle.dom().contains(g));
            }
            assert(got =~= want);
        }
    }

    /// Drop what has run out.
    fn expire(&mut self, config: &Config, vlan: u16, now: u64)
        requires
            old(self).wf(),
            config.wf(),
        ensures
            final(self).wf(),
            final(self).model() == expired(old(self).model(), *config, vlan, now),
    {
        let ghost before = self.model();
        let enabled = config.vlan_enabled(vlan);
        if !enabled {
            self.groups.clear();
            self.dyn_mrouters.clear();
            self.other_querier = None;
            assert(self.model().groups =~= Map::<IpAddr, Map<Seq<char>, Member>>::empty());
        }
        assert(self.model() == shed(before, enabled));
        self.expire_groups(config, now);
        let hold: u64 = config.hold_querier();
        let keep = |p: &String, at: &u64| -> (r: bool)
            ensures
                r == mrouter_stays(*config, now)(p@, *at),
            { elapsed(now, *at) < hold };
        self.dyn_mrouters.retain(keep, Ghost(mrouter_stays(*config, now)));
        match self.other_querier {
            Some(q) => {
                if elapsed(now, q.1) >= hold {
                    self.other_querier = None;
                }
            },
            None => {},
        }
    }

    /// The wanted outputs of each group.
    fn wanted(&self, routers: &TextSet) -> (r: OrdMap<IpAddr, TextSet>)
        requires
            self.wf(),
            routers.wf(),
        ensures
            inner_wf(r),
            sets_model(r) == wanted_groups(self.model().groups, routers@.dom()),
    {
        let ghost es = self.groups.entries@;
        let mut entries: Vec<(IpAddr, TextSet)> = Vec::new();
        let mut i: usize = 0;
        while i < self.groups.entries.len()
            invariant
                self.wf(),
                routers.wf(),
                es == self.groups.entries@,
                i <= es.len(),
                entries@.len() == i,
                forall|j: int|
                    0 <= j < i ==> (#[trigger] entries@[j]).0 == es[j].0 && entries@[j].1.wf()
                        && entries@[j].1@.dom() == es[j].1@.dom().union(routers@.dom()),
            decreases es.len() - i,
        {
            proof {
                crate::ordmap::lemma_map_of_entry(es, i as int);
                assert(self.groups@.dom().contains(es[i as int].0));
            }
            let mut ports = key_set(&self.groups.entries[i].1);
            ports.extend(routers);
            entries.push((self.groups.entries[i].0, ports));
            i = i + 1;
        }
        let r = OrdMap { entries };
        proof {
            assert forall|a: int, b: int| 0 <= a < b < r.entries@.len() implies IpAddr::before(
                (#[trigger] r.entries@[a]).0@,
                (#[trigger] r.entries@[b]).0@,
            ) by {
                assert(IpAddr::before(es[a].0@, es[b].0@));
            }
            let want = wanted_groups(self.model().groups, routers@.dom());
            let got = sets_model(r);
            assert forall|g: IpAddr| #[trigger] r@.dom().contains(g) implies r@[g].wf()
                && want.dom().contains(g) && r@[g]@.dom() == want[g] by {
                let j = choose|j: int| 0 <= j < r.entries@.len() && (#[trigger] r.entries@[j]).0@ == g;
                crate::ordmap::lemma_map_of_entry(r.entries@, j);
                assert(es[j].0@ == g);
                crate::ordmap::lemma_map_of_entry(es, j);
            }
            assert forall|g: IpAddr| #[trigger] want.dom().contains(g) implies got.dom().contains(
                g,
            ) by {
                let j = choose|j: int| 0 <= j < es.len() && (#[trigger] es[j]).0@ == g;
                assert(r.entries@[j].0@ == g);
            }
            assert(got =~= want);
        }
        r
    }

    /// Push group changes (outputs = members + mrouters).
    fn push_groups(&mut self, vlan: u16, routers: &TextSet) -> (r: Vec<GroupUpdate>)
        requires
            old(self).wf(),
            routers.wf(),
        ensures
            final(self).wf(),
            final(self).model() == (VlanModel {
                pushed_groups: wanted_groups(old(self).model().groups, routers@.dom()),
                ..old(self).model()
            }),
            are_updates(
                r@,
                vlan,
                wanted_groups(old(self).model().groups, routers@.dom()),
                old(self).model().pushed_groups,
            ),
    {
        let wanted = self.wanted(routers);
        let mut r = changed_groups(vlan, &wanted, &self.pushed_groups);
        stale_groups(vlan, &wanted, &self.pushed_groups, &mut r);
        self.pushed_groups = wanted;
        r
    }
}

/// A group with members left.
pub open spec fn nonempty() -> spec_fn(IpAddr, OrdMap<String, Member>) -> bool {
    |g: IpAddr, ms: OrdMap<String, Member>| ms.entries@.len() > 0
}

/// The updates for the groups whose outputs changed.
fn changed_groups(
    vlan: u16,
    wanted: &OrdMap<IpAddr, TextSet>,
    pushed: &OrdMap<IpAddr, TextSet>,
) -> (r: Vec<GroupUpdate>)
    requires
        inner_wf(*wanted),
        inner_wf(*pushed),
    ensures
        forall|i: int, j: int|
            0 <= i < j < r@.len() ==> update_before(#[trigger] r@[i], #[trigger] r@[j]),
        forall|i: int|
            0 <= i < r@.len() ==> !(#[trigger] r@[i]).remove && is_update(
                r@[i],
                vlan,
                sets_model(*wanted),
                sets_model(*pushed),
            ),
        forall|g: IpAddr| #[trigger]
            sets_model(*wanted).dom().contains(g) && !pushed_as(
                sets_model(*wanted),
                sets_model(*pushed),
                g,
            ) ==> has_update(r@, g, false),
{
    let ghost w = sets_model(*wanted);
    let ghost p = sets_model(*pushed);
    let ghost es = wanted.entries@;
    let mut r: Vec<GroupUpdate> = Vec::new();
    let mut i: usize = 0;
    while i < wanted.entries.len()
        invariant
            inner_wf(*wanted),
            inner_wf(*pushed),
            w == sets_model(*wanted),
            p == sets_model(*pushed),
            es == wanted.entries@,
            i <= es.len(),
            forall|a: int, b: int|
                0 <= a < b < r@.len() ==> update_before(#[trigger] r@[a], #[trigger] r@[b]),
            forall|a: int|
                0 <= a < r@.len() ==> !(#[trigger] r@[a]).remove && is_update(r@[a], vlan, w, p),
            forall|a: int, k: int|
                0 <= a < r@.len() && i <= k < es.len() ==> crate::ip::ip_before(
                    (#[trigger] r@[a]).group,
                    (#[trigger] es[k]).0,
                ),
            forall|k: int|
                0 <= k < i && !pushed_as(w, p, (#[trigger] es[k]).0) ==> has_update(
                    r@,
                    es[k].0,
                    false,
                ),
        decreases es.len() - i,
    {
        let group = wanted.entries[i].0;
        proof {
            crate::ordmap::lemma_map_of_entry(es, i as int);
            assert(wanted@.dom().contains(group));
            assert forall|k: int| i < k < es.len() implies crate::ip::ip_before(
                group,
                (#[trigger] es[k]).0,
            ) by {
                assert(IpAddr::before(es[i as int].0@, es[k].0@));
            }
        }
        let same = match pushed.get(&group) {
            Some(ports) => ports.same_keys(&wanted.entries[i].1),
            None => false,
        };
        assert(same == pushed_as(w, p, group));
        let ghost had = r@;
        if !same {
            r.push(
                GroupUpdate {
                    vlan,
                    group,
                    ports: wanted.entries[i].1.names(),
                    remove: false,
                },
            );
            assert(r@[had.len() as int].group == group);
        }
        proof {
            assert forall|k: int|
                0 <= k < i + 1 && !pushed_as(w, p, (#[trigger] es[k]).0) implies has_update(
                r@,
                es[k].0,
                false,
            ) by {
                if k < i {
                    let a = choose|a: int|
                        0 <= a < had.len() && (#[trigger] had[a]).group == es[k].0 && had[a].remove
                            == false;
                    assert(r@[a] == had[a]);
                }
            }
        }
        i = i + 1;
    }
    proof {
        assert forall|g: IpAddr| #[trigger] w.dom().contains(g) && !pushed_as(
            w,
            p,
            g,
        ) implies has_update(r@, g, false) by {
            let k = choose|k: int| 0 <= k < es.len() && (#[trigger] es[k]).0@ == g;
            assert(es[k].0 == g);
        }
    }
    r
}

/// The removals of the pushed groups that are no longer wanted.
fn stale_groups(
    vlan: u16,
    wanted: &OrdMap<IpAddr, TextSet>,
    pushed: &OrdMap<IpAddr, TextSet>,
    r: &mut Vec<GroupUpdate>,
)
    requires
        inner_wf(*wanted),
        inner_wf(*pushed),
        forall|i: int, j: int|
            0 <= i < j < old(r)@.len() ==> update_before(
                #[trigger] old(r)@[i],
                #[trigger] old(r)@[j],
            ),
        forall|i: int|
            0 <= i < old(r)@.len() ==> !(#[trigger] old(r)@[i]).remove && is_update(
                old(r)@[i],
                vlan,
                sets_model(*wanted),
                sets_model(*pushed),
            ),
        forall|g: IpAddr| #[trigger]
            sets_model(*wanted).dom().contains(g) && !pushed_as(
                sets_model(*wanted),
                sets_model(*pushed),
                g,
            ) ==> has_update(old(r)@, g, false),
    ensures
        are_updates(final(r)@, vlan, sets_model(*wanted), sets_model(*pushed)),
{
    let ghost w = sets_model(*wanted);
    let ghost p = sets_model(*pushed);
    let ghost es = pushed.entries@;
    let ghost first = r@;
    let mut i: usize = 0;
    while i < pushed.entries.len()
        invariant
            inner_wf(*wanted),
            inner_wf(*pushed),
            w == sets_model(*wanted),
            p == sets_model(*pushed),
            es == pushed.entries@,
            i <= es.len(),
            first.len() <= r@.len(),
            forall|a: int| 0 <= a < first.len() ==> #[trigger] r@[a] == first[a],
            forall|a: int| 0 <= a < first.len() ==> !(#[trigger] first[a]).remove,
            forall|a: int, b: int|
                0 <= a < b < r@.len() ==> update_before(#[trigger] r@[a], #[trigger] r@[b]),
            forall|a: int| 0 <= a < r@.len() ==> is_update(#[trigger] r@[a], vlan, w, p),
            forall|a: int, k: int|
                first.len() <= a < r@.len() && i <= k < es.len() ==> (#[trigger] r@[a]).remove
                    && crate::ip::ip_before(r@[a].group, (#[trigger] es[k]).0),
            forall|a: int| first.len() <= a < r@.len() ==> (#[trigger] r@[a]).remove,
            forall|k: int|
                0 <= k < i && !w.dom().contains((#[trigger] es[k]).0) ==> has_update(
                    r@,
                    es[k].0,
                    true,
                ),
        decreases es.len() - i,
    {
        let group = pushed.entries[i].0;
        proof {
            crate::ordmap::lemma_map_of_entry(es, i as int);
            assert(pushed@.dom().contains(group));
            assert forall|k: int| i < k < es.len() implies crate::ip::ip_before(
                group,
                (#[trigger] es[k]).0,
            ) by {
                assert(IpAddr::before(es[i as int].0@, es[k].0@));
            }
        }
        let ghost had = r@;
        if !wanted.contains(&group) {
            r.push(GroupUpdate { vlan, group, ports: Vec::new(), remove: true });
            assert(r@[had.len() as int].group == group);
        }
        proof {
            assert forall|k: int|
                0 <= k < i + 1 && !w.dom().contains((#[trigger] es[k]).0) implies has_update(
                r@,
                es[k].0,
                true,
            ) by {
                if k < i {
                    let a = choose|a: int|
                        0 <= a < had.len() && (#[trigger] had[a]).group == es[k].0 && had[a].remove
                            == true;
                    assert(r@[a] == had[a]);
                }
            }
        }
        i = i + 1;
    }
    proof {
        assert forall|g: IpAddr| #[trigger] w.dom().contains(g) && !pushed_as(
            w,
            p,
            g,
        ) implies has_update(r@, g, false) by {
            assert(has_update(first, g, false));
            let a = choose|a: int|
                0 <= a < first.len() && (#[trigger] first[a]).group == g && first[a].remove
                    == false;
            assert(r@[a] == first[a]);
        }
        assert forall|g: IpAddr| #[trigger] p.dom().contains(g) && !w.dom().contains(
            g,
        ) implies has_update(r@, g, true) by {
            let k = choose|k: int| 0 <= k < es.len() && (#[trigger] es[k]).0@ == g;
            assert(es[k].0 == g);
        }
    }
}

impl VlanState {
    /// Push the unknown-multicast scope, on change.
    fn push_scope(&mut self, config: &Config, vlan: u16, routers: TextSet) -> (r: Option<
        MrouterUpdate,
    >)
        requires
            old(self).wf(),
            config.wf(),
            routers.wf(),
        ensures
            final(self).wf(),
            final(self).model() == (VlanModel {
                pushed_mrouters: Some(scope(routers@.dom(), *config, vlan)),
                ..old(self).model()
            }),
            is_scope_push(
                r,
                vlan,
                old(self).model().pushed_mrouters,
                scope(routers@.dom(), *config, vlan),
            ),
    {
        let enabled = config.vlan_enabled(vlan);
        let querier = match config.vlans.get(&vlan) {
            Some(v) => v.querier,
            None => false,
        };
        let some = routers.entries.len() > 0;
        proof {
            if some {
                crate::ordmap::lemma_map_of_entry(routers.entries@, 0);
                assert(routers@.dom().contains(routers.entries@[0].0@));
            } else {
                assert(routers@.dom() =~= Set::<Seq<char>>::empty());
            }
        }
        let restrict = enabled && (some || querier);
        let ports: TextSet = if restrict {
            routers
        } else {
            OrdMap::new()
        };
        assert(!restrict ==> ports@.dom() =~= Set::<Seq<char>>::empty());
        assert((restrict, ports@.dom()) == scope(routers@.dom(), *config, vlan));
        let same = match &self.pushed_mrouters {
            Some(p) => p.0 == restrict && p.1.same_keys(&ports),
            None => false,
        };
        if same {
            return None;
        }
        let names = ports.names();
        self.pushed_mrouters = Some((restrict, ports));
        Some(MrouterUpdate { vlan, restrict, ports: names })
    }

    /// The general queries that are due.
    fn send_queries(
        &mut self,
        config: &Config,
        family: Family,
        mac: [u8; 6],
        vlan_ports: &OrdMap<u16, Vec<String>>,
        vlan: u16,
        now: u64,
    ) -> (r: Vec<(String, Vec<u8>)>)
        requires
            old(self).wf(),
            config.wf(),
            vlan_ports.wf(),
        ensures
            final(self).wf(),
            final(self).model() == (VlanModel {
                last_query_tx: if query_due(old(self).model(), *config, vlan, now) {
                    Some(now)
                } else {
                    old(self).last_query_tx
                },
                ..old(self).model()
            }),
            if query_due(old(self).model(), *config, vlan, now) {
                goes_out(
                    r@,
                    ports_at(vlan_ports@, vlan),
                    general_query(family, mac@, config.source(family, vlan)),
                )
            } else {
                r@.len() == 0
            },
    {
        let mut r: Vec<(String, Vec<u8>)> = Vec::new();
        let querier = match config.vlans.get(&vlan) {
            Some(v) => v.querier,
            None => false,
        };
        let due = match self.last_query_tx {
            Some(at) => elapsed(now, at) >= config.query_interval,
            None => true,
        };
        if !config.vlan_enabled(vlan) || !querier || self.other_querier.is_some() || !due {
            return r;
        }
        self.last_query_tx = Some(now);
        let source = config.querier_source(family, vlan);
        let frame = encode_general_query(family, mac, source);
        match vlan_ports.get(&vlan) {
            Some(ports) => {
                let mut i: usize = 0;
                while i < ports.len()
                    invariant
                        i <= ports@.len(),
                        r@.len() == i,
                        forall|j: int|
                            0 <= j < i ==> (#[trigger] r@[j]).0@ == ports@[j]@ && r@[j].1@
                                == frame@,
                    decreases ports@.len() - i,
                {
                    let bytes = copy_bytes(frame.as_slice(), 0, frame.len());
                    assert(bytes@ =~= frame@);
                    r.push((ports[i].clone(), bytes));
                    i = i + 1;
                }
                assert(ports.deep_view().len() == ports@.len());
            },
            None => {},
        }
        r
    }

    /// One VLAN's part of an evaluation pass.
    fn step(
        &mut self,
        config: &Config,
        family: Family,
        mac: [u8; 6],
        vlan_ports: &OrdMap<u16, Vec<String>>,
        vlan: u16,
        now: u64,
    ) -> (r: VlanOutput)
        requires
            old(self).wf(),
            config.wf(),
            vlan_ports.wf(),
        ensures
            final(self).wf(),
            final(self).model() == vlan_stepped(old(self).model(), *config, vlan, now),
            is_output(
                r,
                old(self).model(),
                *config,
                family,
                mac@,
                vlan_ports@,
                vlan,
                now,
            ),
    {
        let routers = self.mrouter_set(config, vlan, now);
        self.expire(config, vlan, now);
        let groups = self.push_groups(vlan, &routers);
        let mrouters = self.push_scope(config, vlan, routers);
        let queries = self.send_queries(config, family, mac, vlan_ports, vlan, now);
        VlanOutput { groups, mrouters, queries }
    }
}

// ----------------------------------------------------------------- engine

pub struct Engine {
    pub family: Family,
    pub config: Config,
    /// VLAN -> its member ports (for query transmission), fed from
    /// syncd's interface view.
    pub vlan_ports: OrdMap<u16, Vec<String>>,
    pub vlans: OrdMap<u16, VlanState>,
    pub system_mac: [u8; 6],
}

/// The state of a VLAN; blank where nothing is known of it.
pub open spec fn model_at(models: Map<u16, VlanModel>, vlan: u16) -> VlanModel {
    if models.dom().contains(vlan) {
        models[vlan]
    } else {
        blank()
    }
}

/// The VLANs after the first `n` messages of a frame.
pub open spec fn heard(
    models: Map<u16, VlanModel>,
    config: Config,
    family: Family,
    vlan: u16,
    port: Seq<char>,
    ms: Seq<Message>,
    now: u64,
    n: int,
) -> Map<u16, VlanModel>
    decreases n,
{
    if n <= 0 {
        models
    } else {
        let front = heard(models, config, family, vlan, port, ms, now, n - 1);
        front.insert(
            vlan,
            applied(model_at(front, vlan), config, family, vlan, port, ms[n - 1], now),
        )
    }
}

/// The VLANs after the first `n` of a list were evaluated in turn.
pub open spec fn evaluated(
    models: Map<u16, VlanModel>,
    config: Config,
    list: Seq<u16>,
    now: u64,
    n: int,
) -> Map<u16, VlanModel>
    decreases n,
{
    if n <= 0 {
        models
    } else {
        let front = evaluated(models, config, list, now, n - 1);
        front.insert(
            list[n - 1],
            vlan_stepped(model_at(front, list[n - 1]), config, list[n - 1], now),
        )
    }
}

/// The keys of a table, in order.
pub open spec fn vlan_keys<T>(s: Seq<(u16, T)>) -> Seq<u16> {
    Seq::new(s.len(), |i: int| s[i].0)
}

fn push_keys<T>(m: &OrdMap<u16, T>, out: &mut Vec<u16>)
    ensures
        final(out)@ == old(out)@ + vlan_keys(m.entries@),
{
    let ghost before = out@;
    let mut i: usize = 0;
    while i < m.entries.len()
        invariant
            i <= m.entries@.len(),
            out@.len() == before.len() + i,
            forall|j: int| 0 <= j < before.len() ==> #[trigger] out@[j] == before[j],
            forall|j: int|
                before.len() <= j < out@.len() ==> #[trigger] out@[j] == m.entries@[j
                    - before.len()].0,
        decreases m.entries@.len() - i,
    {
        out.push(m.entries[i].0);
        i = i + 1;
    }
    assert(out@ =~= before + vlan_keys(m.entries@));
}

impl Engine {
    pub open spec fn wf(&self) -> bool {
        &&& self.config.wf()
        &&& self.vlan_ports.wf()
        &&& self.vlans.wf()
        &&& forall|v: u16| #[trigger] self.vlans@.dom().contains(v) ==> self.vlans@[v].wf()
    }

    /// What is known of each VLAN.
    pub open spec fn models(&self) -> Map<u16, VlanModel> {
        Map::new(|v: u16| self.vlans@.dom().contains(v), |v: u16| self.vlans@[v].model())
    }

    /// The setup of two engines is the same.
    pub open spec fn same_setup(&self, other: &Engine) -> bool {
        self.family == other.family && self.config == other.config && self.vlan_ports
            == other.vlan_ports && self.system_mac == other.system_mac
    }

    pub fn spawn(family: Family, system_mac: [u8; 6]) -> (r: Engine)
        ensures
            r.wf(),
            r.family == family,
            r.system_mac == system_mac,
            !r.config.disabled,
            r.config.robustness == 2,
            r.config.vlans.entries@.len() == 0,
            r.config.query_interval == 125_000,
            r.config.last_member_interval == 2_000,
            r.vlan_ports.entries@.len() == 0,
            r.vlans.entries@.len() == 0,
    {
        Engine {
            family,
            config: Config::default(),
            vlan_ports: OrdMap::new(),
            vlans: OrdMap::new(),
            system_mac,
        }
    }

    /// Replace the configuration (declarative). An evaluation pass is due
    /// after it.
    pub fn set_config(&mut self, config: Config)
        requires
            old(self).wf(),
            config.wf(),
        ensures
            final(self).wf(),
            final(self).config == (Config {
                robustness: if config.robustness == 0 {
                    2
                } else {
                    config.robustness
                },
                ..config
            }),
            final(self).family == old(self).family,
            final(self).vlan_ports == old(self).vlan_ports,
            final(self).vlans == old(self).vlans,
            final(self).system_mac == old(self).system_mac,
    {
        let mut config = config;
        if config.robustness == 0 {
            config.robustness = 2;
        }
        self.config = config;
    }

    /// The VLAN membership map (for query transmission), from syncd's
    /// interface view.
    pub fn set_vlan_ports(&mut self, map: OrdMap<u16, Vec<String>>)
        requires
            old(self).wf(),
            map.wf(),
        ensures
            final(self).wf(),
            final(self).vlan_ports == map,
            final(self).family == old(self).family,
            final(self).config == old(self).config,
            final(self).vlans == old(self).vlans,
            final(self).system_mac == old(self).system_mac,
    {
        self.vlan_ports = map;
    }

    /// Take a VLAN's state out, blank where there is none.
    fn take(&mut self, vlan: u16) -> (r: VlanState)
        requires
            old(self).wf(),
        ensures
            final(self).wf(),
            final(self).same_setup(old(self)),
            final(self).models() == old(self).models().remove(vlan),
            r.wf(),
            r.model() == model_at(old(self).models(), vlan),
    {
        let ghost before = self.models();
        let ghost had = self.vlans@;
        let taken = self.vlans.remove(&vlan);
        proof {
            assert forall|v: u16| #[trigger] self.vlans@.dom().contains(v) implies self.vlans@[v].wf()
                by {
                assert(had.dom().contains(v));
            }
            assert(self.models() =~= before.remove(vlan));
        }
        match taken {
            Some(state) => state,
            None => VlanState::new(),
        }
    }

    /// Put a VLAN's state back.
    fn put(&mut self, vlan: u16, state: VlanState)
        requires
            old(self).wf(),
            state.wf(),
        ensures
            final(self).wf(),
            final(self).same_setup(old(self)),
            final(self).models() == old(self).models().insert(vlan, state.model()),
    {
        let ghost before = self.models();
        let ghost had = self.vlans@;
        self.vlans.insert(vlan, state);
        proof {
            assert forall|v: u16| #[trigger] self.vlans@.dom().contains(v) implies self.vlans@[v].wf()
                by {
                if v != vlan {
                    assert(had.dom().contains(v));
                }
            }
            assert(self.models() =~= before.insert(vlan, state.model()));
        }
    }

    /// A classified frame: (ingress port, VLAN, frame). An evaluation pass
    /// is due after it.
    pub fn on_packet(&mut self, port: &str, vlan: u16, frame: &[u8], now: u64)
        requires
            old(self).wf(),
        ensures
            final(self).wf(),
            final(self).same_setup(old(self)),
            final(self).models() == if old(self).config.enabled(vlan) {
                heard(
                    old(self).models(),
                    old(self).config,
                    old(self).family,
                    vlan,
                    port@,
                    messages(old(self).family, frame@),
                    now,
                    messages(old(self).family, frame@).len() as int,
                )
            } else {
                old(self).models()
            },
    {
        if !self.config.vlan_enabled(vlan) {
            return;
        }
        let ghost models = self.models();
        let ghost first = *self;
        let family = self.family;
        let ms = parse(family, frame);
        let mut i: usize = 0;
        while i < ms.len()
            invariant
                self.wf(),
                self.same_setup(&first),
                first == *old(self),
                family == self.family,
                i <= ms@.len(),
                self.models() == heard(
                    models,
                    first.config,
                    family,
                    vlan,
                    port@,
                    ms@,
                    now,
                    i as int,
                ),
            decreases ms@.len() - i,
        {
            let ghost front = self.models();
            let mut state = self.take(vlan);
            state.apply(&self.config, family, vlan, port, ms[i], now);
            self.put(vlan, state);
            i = i + 1;
            assert(self.models() =~= heard(
                models,
                first.config,
                family,
                vlan,
                port@,
                ms@,
                now,
                i as int,
            ));
        }
    }

    /// One evaluation pass: timers, pushes, due queries. The VLANs with
    /// state come first, then the configured ones; what comes back is what
    /// each of them puts out, in that order.
    pub fn step(&mut self, now: u64) -> (r: Vec<VlanOutput>)
        requires
            old(self).wf(),
        ensures
            final(self).wf(),
            final(self).same_setup(old(self)),
            ({
                let list = vlan_keys(old(self).vlans.entries@) + vlan_keys(
                    old(self).config.vlans.entries@,
                );
                &&& final(self).models() == evaluated(
                    old(self).models(),
                    old(self).config,
                    list,
                    now,
                    list.len() as int,
                )
                &&& r@.len() == list.len()
                &&& forall|i: int|
                    0 <= i < r@.len() ==> is_output(
                        #[trigger] r@[i],
                        model_at(
                            evaluated(old(self).models(), old(self).config, list, now, i),
                            list[i],
                        ),
                        old(self).config,
                        old(self).family,
                        old(self).system_mac@,
                        old(self).vlan_ports@,
                        list[i],
                        now,
                    )
            }),
    {
        let ghost models = self.models();
        let ghost first = *self;
        let mut list: Vec<u16> = Vec::new();
        push_keys(&self.vlans, &mut list);
        push_keys(&self.config.vlans, &mut list);
        assert(list@ =~= vlan_keys(first.vlans.entries@) + vlan_keys(
            first.config.vlans.entries@,
        ));
        let mut r: Vec<VlanOutput> = Vec::new();
        let mut i: usize = 0;
        while i < list.len()
            invariant
                self.wf(),
                self.same_setup(&first),
                first == *old(self),
                i <= list@.len(),
                self.models() == evaluated(models, first.config, list@, now, i as int),
                r@.len() == i,
                forall|j: int|
                    0 <= j < i ==> is_output(
                        #[trigger] r@[j],
                        model_at(evaluated(models, first.config, list@, now, j), list@[j]),
                        first.config,
                        first.family,
                        first.system_mac@,
                        first.vlan_ports@,
                        list@[j],
                        now,
                    ),
            decreases list@.len() - i,
        {
            let vlan: u16 = list[i];
            let ghost front = self.models();
            let mut state = self.take(vlan);
            let out = state.step(
                &self.config,
                self.family,
                self.system_mac,
                &self.vlan_ports,
                vlan,
                now,
            );
            self.put(vlan, state);
            r.push(out);
            i = i + 1;
            assert(self.models() =~= evaluated(models, first.config, list@, now, i as int));
        }
        r
    }
}

// --------------------------------------------------------------- snapshot

/// Per-VLAN snapshot.
#[derive(Debug, Clone)]
pub struct VlanSnapshot {
    pub vlan: u16,
    pub enabled: bool,
    pub fast_leave: bool,
    pub querier_enabled: bool,
    pub querier_address: Option<IpAddr>,
    /// We are actively the querier (enabled and not suppressed).
    pub querier_active: bool,
    pub static_mrouters: Vec<String>,
    pub dynamic_mrouters: Vec<String>,
    pub groups: Vec<GroupSnapshot>,
}

#[derive(Debug, Clone)]
pub struct GroupSnapshot {
    pub group: IpAddr,
    pub version: u8,
    pub ports: Vec<String>,
}

#[derive(Debug, Clone)]
pub struct Snapshot {
    pub enabled: bool,
    pub robustness: u8,
    pub vlans: Vec<VlanSnapshot>,
}

/// The protocol version of a group: the highest of its members, 2 where it
/// has none.
pub open spec fn group_version(members: Map<Seq<char>, Member>, version: u8) -> bool {
    if any_member(members) {
        &&& exists|p: Seq<char>| #[trigger]
            members.dom().contains(p) && members[p].version == version
        &&& forall|p: Seq<char>| #[trigger]
            members.dom().contains(p) ==> members[p].version <= version
    } else {
        version == 2
    }
}

/// Rows in the order of their groups, one for each.
pub open spec fn shows_groups(
    r: Seq<GroupSnapshot>,
    groups: Map<IpAddr, Map<Seq<char>, Member>>,
) -> bool {
    &&& forall|i: int, j: int|
        0 <= i < j < r.len() ==> crate::ip::ip_before(
            (#[trigger] r[i]).group,
            (#[trigger] r[j]).group,
        )
    &&& forall|i: int|
        0 <= i < r.len() ==> groups.dom().contains((#[trigger] r[i]).group) && group_version(
            groups[r[i].group],
            r[i].version,
        ) && crate::ordmap::lists(r[i].ports.deep_view(), groups[r[i].group].dom())
    &&& forall|g: IpAddr| #[trigger]
        groups.dom().contains(g) ==> exists|i: int|
            0 <= i < r.len() && (#[trigger] r[i]).group == g
}

/// Is a foreign querier active?
pub open spec fn suppressed(m: VlanModel, config: Config, now: u64) -> bool {
    m.other_querier matches Some(q) && crate::clock::since(now, q.1) < config.querier_hold()
}

/// A row shows a VLAN as it is.
pub open spec fn shows_vlan(r: VlanSnapshot, m: VlanModel, config: Config, now: u64) -> bool {
    &&& r.enabled == config.enabled(r.vlan)
    &&& r.fast_leave == config.fast_leave(r.vlan)
    &&& r.querier_enabled == config.querier(r.vlan)
    &&& r.querier_address == config.querier_address(r.vlan)
    &&& r.querier_active == (config.enabled(r.vlan) && config.querier(r.vlan) && !suppressed(
        m,
        config,
        now,
    ))
    &&& r.static_mrouters.deep_view() == config.static_mrouters(r.vlan)
    &&& crate::ordmap::lists(r.dynamic_mrouters.deep_view(), m.dyn_mrouters.dom())
    &&& shows_groups(r.groups@, m.groups)
}

fn show_group(group: IpAddr, members: &OrdMap<String, Member>) -> (r: GroupSnapshot)
    requires
        members.wf(),
    ensures
        r.group == group,
        group_version(members@, r.version),
        crate::ordmap::lists(r.ports.deep_view(), members@.dom()),
{
    let ghost es = members.entries@;
    let mut best: Option<u8> = None;
    let mut i: usize = 0;
    while i < members.entries.len()
        invariant
            members.wf(),
            es == members.entries@,
            i <= es.len(),
            match best {
                Some(v) => (exists|j: int| 0 <= j < i && (#[trigger] es[j]).1.version == v)
                    && forall|j: int| 0 <= j < i ==> (#[trigger] es[j]).1.version <= v,
                None => i == 0,
            },
        decreases es.len() - i,
    {
        let v: u8 = members.entries[i].1.version;
        let higher = match best {
            Some(b) => v > b,
            None => true,
        };
        if higher {
            best = Some(v);
            assert(es[i as int].1.version == v);
        }
        i = i + 1;
    }
    proof {
        if es.len() > 0 {
            let v = best->0;
            let j = choose|j: int| 0 <= j < es.len() && (#[trigger] es[j]).1.version == v;
            crate::ordmap::lemma_map_of_entry(es, j);
            assert(members@.dom().contains(es[j].0@));
            assert forall|p: Seq<char>| #[trigger]
                members@.dom().contains(p) implies members@[p].version <= v by {
                let x = choose|x: int| 0 <= x < es.len() && (#[trigger] es[x]).0@ == p;
                crate::ordmap::lemma_map_of_entry(es, x);
            }
        } else {
            if any_member(members@) {
                let p = choose|p: Seq<char>| #[trigger] members@.dom().contains(p);
                let x = choose|x: int| 0 <= x < es.len() && (#[trigger] es[x]).0@ == p;
                assert(false);
            }
        }
    }
    let version: u8 = match best {
        Some(v) => v,
        None => 2,
    };
    GroupSnapshot { group, version, ports: key_set(members).names() }
}

impl VlanState {
    fn show_groups(&self) -> (r: Vec<GroupSnapshot>)
        requires
            self.wf(),
        ensures
            shows_groups(r@, self.model().groups),
    {
        let ghost es = self.groups.entries@;
        let ghost groups = self.model().groups;
        let mut r: Vec<GroupSnapshot> = Vec::new();
        let mut i: usize = 0;
        while i < self.groups.entries.len()
            invariant
                self.wf(),
                es == self.groups.entries@,
                groups == self.model().groups,
                i <= es.len(),
                r@.len() == i,
                forall|j: int|
                    0 <= j < i ==> (#[trigger] r@[j]).group == es[j].0 && group_version(
                        groups[es[j].0],
                        r@[j].version,
                    ) && crate::ordmap::lists(r@[j].ports.deep_view(), groups[es[j].0].dom()),
            decreases es.len() - i,
        {
            proof {
                crate::ordmap::lemma_map_of_entry(es, i as int);
                assert(self.groups@.dom().contains(es[i as int].0));
            }
            r.push(show_group(self.groups.entries[i].0, &self.groups.entries[i].1));
            i = i + 1;
        }
        proof {
            assert forall|a: int, b: int| 0 <= a < b < r@.len() implies crate::ip::ip_before(
                (#[trigger] r@[a]).group,
                (#[trigger] r@[b]).group,
            ) by {
                assert(IpAddr::before(es[a].0@, es[b].0@));
            }
            assert forall|a: int| 0 <= a < r@.len() implies groups.dom().contains(
                (#[trigger] r@[a]).group,
            ) by {
                crate::ordmap::lemma_map_of_entry(es, a);
            }
            assert forall|g: IpAddr| #[trigger] groups.dom().contains(g) implies exists|a: int|
                0 <= a < r@.len() && (#[trigger] r@[a]).group == g by {
                let x = choose|x: int| 0 <= x < es.len() && (#[trigger] es[x]).0@ == g;
                assert(r@[x].group == g);
            }
        }
        r
    }
}

impl Engine {
    fn show_vlan(&self, vlan: u16, now: u64) -> (r: VlanSnapshot)
        requires
            self.wf(),
        ensures
            r.vlan == vlan,
            shows_vlan(r, model_at(self.models(), vlan), self.config, now),
    {
        let enabled = self.config.vlan_enabled(vlan);
        let hold: u64 = self.config.hold_querier();
        let (fast_leave, querier, querier_address, static_mrouters) = match self.config.vlans.get(
            &vlan,
        ) {
            Some(c) => (c.fast_leave, c.querier, c.querier_address, copy_texts(&c.static_mrouters)),
            None => (false, false, None, Vec::new()),
        };
        assert(static_mrouters.deep_view() =~= self.config.static_mrouters(vlan));
        let (other, dynamic_mrouters, groups) = match self.vlans.get(&vlan) {
            Some(state) => (
                match state.other_querier {
                    Some(q) => elapsed(now, q.1) < hold,
                    None => false,
                },
                key_set(&state.dyn_mrouters).names(),
                state.show_groups(),
            ),
            None => {
                let state = VlanState::new();
                (false, key_set(&state.dyn_mrouters).names(), state.show_groups())
            },
        };
        VlanSnapshot {
            vlan,
            enabled,
            fast_leave,
            querier_enabled: querier,
            querier_address,
            querier_active: enabled && querier && !other,
            static_mrouters,
            dynamic_mrouters,
            groups,
        }
    }

    /// The state, as it stands at `now`: configured VLANs always render,
    /// VLANs with learned state too.
    pub fn snapshot(&self, now: u64) -> (r: Snapshot)
        requires
            self.wf(),
        ensures
            r.enabled == !self.config.disabled,
            r.robustness == self.config.robustness,
            forall|i: int, j: int|
                0 <= i < j < r.vlans@.len() ==> (#[trigger] r.vlans@[i]).vlan < (
                #[trigger] r.vlans@[j]).vlan,
            forall|i: int|
                0 <= i < r.vlans@.len() ==> (self.config.vlans@.dom().contains(
                    (#[trigger] r.vlans@[i]).vlan,
                ) || self.vlans@.dom().contains(r.vlans@[i].vlan)) && shows_vlan(
                    r.vlans@[i],
                    model_at(self.models(), r.vlans@[i].vlan),
                    self.config,
                    now,
                ),
            forall|v: u16|
                self.config.vlans@.dom().contains(v) || self.vlans@.dom().contains(v)
                    ==> #[trigger] has_row(r.vlans@, v),
    {
        let mut ids: OrdMap<u16, ()> = OrdMap::new();
        add_keys(&mut ids, &self.config.vlans);
        add_keys(&mut ids, &self.vlans);
        let ghost es = ids.entries@;
        let mut vlans: Vec<VlanSnapshot> = Vec::new();
        let mut i: usize = 0;
        while i < ids.entries.len()
            invariant
                self.wf(),
                es == ids.entries@,
                i <= es.len(),
                vlans@.len() == i,
                forall|j: int|
                    0 <= j < i ==> (#[trigger] vlans@[j]).vlan == es[j].0 && shows_vlan(
                        vlans@[j],
                        model_at(self.models(), es[j].0),
                        self.config,
                        now,
                    ),
            decreases es.len() - i,
        {
            vlans.push(self.show_vlan(ids.entries[i].0, now));
            i = i + 1;
        }
        proof {
            assert forall|a: int, b: int| 0 <= a < b < vlans@.len() implies (
            #[trigger] vlans@[a]).vlan < (#[trigger] vlans@[b]).vlan by {
                assert(u16::before(es[a].0@, es[b].0@));
            }
            assert forall|a: int| 0 <= a < vlans@.len() implies (self.config.vlans@.dom().contains(
                (#[trigger] vlans@[a]).vlan,
            ) || self.vlans@.dom().contains(vlans@[a].vlan)) by {
                crate::ordmap::lemma_map_of_entry(es, a);
                assert(ids@.dom().contains(es[a].0));
            }
            assert forall|v: u16|
                self.config.vlans@.dom().contains(v) || self.vlans@.dom().contains(
                    v,
                ) implies #[trigger] has_row(vlans@, v) by {
                assert(ids@.dom().contains(v));
                let x = choose|x: int| 0 <= x < es.len() && (#[trigger] es[x]).0@ == v;
                assert(vlans@[x].vlan == v);
            }
        }
        Snapshot {
            enabled: !self.config.disabled,
            robustness: self.config.robustness,
            vlans,
        }
    }
}

/// Some row is about a VLAN.
pub open spec fn has_row(rows: Seq<VlanSnapshot>, vlan: u16) -> bool {
    exists|i: int| 0 <= i < rows.len() && (#[trigger] rows[i]).vlan == vlan
}

fn add_keys<T>(ids: &mut OrdMap<u16, ()>, m: &OrdMap<u16, T>)
    requires
        old(ids).wf(),
        m.wf(),
    ensures
        final(ids).wf(),
        forall|v: u16| #[trigger]
            final(ids)@.dom().contains(v) <==> (old(ids)@.dom().contains(v)
                || m@.dom().contains(v)),
{
    let ghost before = ids@;
    let mut i: usize = 0;
    while i < m.entries.len()
        invariant
            ids.wf(),
            m.wf(),
            i <= m.entries@.len(),
            forall|v: u16| #[trigger]
                ids@.dom().contains(v) <==> (before.dom().contains(v) || crate::ordmap::has_key(
                    m.entries@,
                    i as int,
                    v,
                )),
        decreases m.entries@.len() - i,
    {
        proof {
            crate::ordmap::lemma_has_key_next(m.entries@, i as int);
        }
        ids.insert(m.entries[i].0, ());
        i = i + 1;
    }
}

// -------------------------------------------------------------------- laws

/// A quiet network keeps flooding rather than blackholing: unknown
/// multicast is restricted only where the VLAN has an mrouter or runs the
/// local querier, and then to the mrouters.
pub proof fn lemma_quiet_network_floods(
    routers: Set<Seq<char>>,
    config: Config,
    vlan: u16,
)
    ensures
        routers == Set::<Seq<char>>::empty() && !config.querier(vlan) ==> !scope(
            routers,
            config,
            vlan,
        ).0,
        !config.enabled(vlan) ==> !scope(routers, config, vlan).0,
        scope(routers, config, vlan).0 ==> scope(routers, config, vlan).1 == routers,
{
}

/// Fast-leave drops the member at once; without it the member stays until
/// the leave has run out.
pub proof fn lemma_leave(
    m: VlanModel,
    config: Config,
    family: Family,
    vlan: u16,
    port: Seq<char>,
    group: IpAddr,
    now: u64,
)
    requires
        m.groups.dom().contains(group),
        m.groups[group].dom().contains(port),
    ensures
        ({
            let r = applied(m, config, family, vlan, port, Message::Leave { group }, now);
            &&& config.fast_leave(vlan) ==> !r.groups[group].dom().contains(port)
            &&& !config.fast_leave(vlan) ==> r.groups[group].dom().contains(port)
                && r.groups[group][port].pending_leave == Some(now)
        }),
{
}

/// Every group's outputs hold the mrouters, and a group is pushed exactly
/// while it has a member.
pub proof fn lemma_outputs_hold_mrouters(
    m: VlanModel,
    config: Config,
    vlan: u16,
    now: u64,
    group: IpAddr,
)
    ensures
        ({
            let r = vlan_stepped(m, config, vlan, now);
            &&& r.pushed_groups.dom().contains(group) <==> r.groups.dom().contains(group)
            &&& r.pushed_groups.dom().contains(group) ==> mrouters(
                m,
                config,
                vlan,
                now,
            ).subset_of(r.pushed_groups[group]) && any_member(r.groups[group])
        }),
{
}

/// The querier election: a query from a lower address makes ours yield, and
/// no query goes out while that querier lasts.
pub proof fn lemma_lower_querier_wins(
    m: VlanModel,
    config: Config,
    family: Family,
    vlan: u16,
    port: Seq<char>,
    source: IpAddr,
    heard_at: u64,
    now: u64,
)
    requires
        crate::ip::ip_before(source, config.source(family, vlan)),
        crate::clock::since(now, heard_at) < config.querier_hold(),
    ensures
        ({
            let h = applied(m, config, family, vlan, port, Message::Query { source }, heard_at);
            &&& suppressed(h, config, now)
            &&& !query_due(expired(h, config, vlan, now), config, vlan, now)
            &&& mrouters(h, config, vlan, now).contains(port)
        }),
{
}

/// Pushes are made on change only: right after a pass, another one at the
/// same moment wants nothing else pushed.
pub proof fn lemma_pass_settles(m: VlanModel, config: Config, vlan: u16, now: u64)
    requires
        config.enabled(vlan),
    ensures
        ({
            let r = vlan_stepped(m, config, vlan, now);
            let routers = mrouters(r, config, vlan, now);
            &&& routers == mrouters(m, config, vlan, now)
            &&& wanted_groups(expired(r, config, vlan, now).groups, routers) == r.pushed_groups
            &&& r.pushed_mrouters == Some(scope(routers, config, vlan))
        }),
{
    let r = vlan_stepped(m, config, vlan, now);
    let e = expired(r, config, vlan, now);
    assert(mrouters(r, config, vlan, now) =~= mrouters(m, config, vlan, now));
    assert forall|g: IpAddr| #[trigger] r.groups.dom().contains(g) implies live_members(
        r.groups[g],
        config,
        now,
    ) == r.groups[g] by {
        assert(live_members(r.groups[g], config, now) =~= r.groups[g]);
    }
    assert(e.groups =~= r.groups);
}

} // verus!
