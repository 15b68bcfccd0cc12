//! Laws of multicast snooping.

use vstd::prelude::*;

use crate::ip::{IpAddr, Ipv4, Ipv6};
use crate::snoop::{
    Config, Family, GroupSnapshot, Member, Message, VlanModel, VlanOutput, VlanSnapshot,
};

verus! {

// ---------------------------------------------------------------- reading

/// The IPv4 address of four bytes.
pub open spec fn four(b: Seq<u8>, at: int) -> IpAddr {
    IpAddr::V4(
        Ipv4 {
            bits: (b[at] * 0x100_0000 + b[at + 1] * 0x1_0000 + b[at + 2] * 0x100 + b[at
                + 3]) as u32,
        },
    )
}

/// An IGMP message of an IPv4 packet stands behind the packet's header.
pub open spec fn carries_igmp(f: Seq<u8>, at: int) -> bool {
    &&& f.len() >= 42
    &&& f[12] == 8
    &&& f[13] == 0
    &&& f[14] / 16 == 4
    &&& at == 14 + (f[14] % 16) * 4
    &&& f.len() >= at + 8
    &&& f[23] == 2
}

/// What is no IPv4 packet with an IGMP message says nothing. A query names
/// the router that sent it, a report or a leave the group.
pub proof fn lemma_igmp_frames(f: Seq<u8>, at: int)
    requires
        at == 14 + (f[14] % 16) * 4,
    ensures
        ({
            let ms = crate::snoop::messages(Family::Igmp, f);
            &&& !carries_igmp(f, at) ==> ms.len() == 0
            &&& carries_igmp(f, at) ==> {
                &&& f[at] == 0x11 ==> ms == seq![Message::Query { source: four(f, 26) }]
                &&& f[at] == 0x12 ==> ms == seq![
                    Message::Report { group: four(f, at + 4), version: 1 },
                ]
                &&& f[at] == 0x16 ==> ms == seq![
                    Message::Report { group: four(f, at + 4), version: 2 },
                ]
                &&& f[at] == 0x17 ==> ms == seq![Message::Leave { group: four(f, at + 4) }]
                &&& f[at] != 0x11 && f[at] != 0x12 && f[at] != 0x16 && f[at] != 0x17 && f[at]
                    != 0x22 ==> ms.len() == 0
                &&& f[at] == 0x22 ==> ms == crate::snoop::igmp_records(
                    f.skip(at),
                    8,
                    f[at + 6] * 0x100 + f[at + 7],
                )
            }
        }),
{
    if f.len() >= 42 && f.len() >= at + 8 {
        let b = f.skip(at);
        assert(b[0] == f[at] && b[4] == f[at + 4] && b[5] == f[at + 5] && b[6] == f[at + 6] && b[7]
            == f[at + 7]);
    }
}

/// An ICMPv6 message of an IPv6 packet, behind at most one hop-by-hop header.
pub open spec fn carries_mld(f: Seq<u8>, at: int) -> bool {
    &&& f.len() >= 62
    &&& f[12] == 0x86
    &&& f[13] == 0xdd
    &&& f[14] / 16 == 6
    &&& f[20] == 0 ==> f[54] == 58 && at == 54 + (f[55] + 1) * 8
    &&& f[20] != 0 ==> f[20] == 58 && at == 54
    &&& f.len() >= at + 8
}

/// Half of an IPv6 address, out of eight bytes.
pub open spec fn half(b: Seq<u8>, at: int) -> int {
    (b[at] * 0x100_0000 + b[at + 1] * 0x1_0000 + b[at + 2] * 0x100 + b[at + 3]) * 0x1_0000_0000 + (
    b[at + 4] * 0x100_0000 + b[at + 5] * 0x1_0000 + b[at + 6] * 0x100 + b[at + 7])
}

/// The IPv6 address of sixteen bytes.
pub open spec fn sixteen(b: Seq<u8>, at: int) -> IpAddr {
    IpAddr::V6(Ipv6 { hi: half(b, at) as u64, lo: half(b, at + 8) as u64 })
}

proof fn lemma_sixteen(b: Seq<u8>, at: int)
    ensures
        crate::snoop::v6_at(b, at) == sixteen(b, at),
{
}

/// What is no IPv6 packet with an MLD message says nothing. A query names the
/// router that sent it, a report or a leave the group.
pub proof fn lemma_mld_frames(f: Seq<u8>, at: int)
    requires
        at == (if f[20] == 0 {
            54 + (f[55] + 1) * 8
        } else {
            54
        }),
    ensures
        ({
            let ms = crate::snoop::messages(Family::Mld, f);
            &&& !carries_mld(f, at) ==> ms.len() == 0
            &&& carries_mld(f, at) ==> {
                &&& f[at] == 130 ==> ms == seq![Message::Query { source: sixteen(f, 22) }]
                &&& f[at] == 131 && f.len() >= at + 24 ==> ms == seq![
                    Message::Report { group: sixteen(f, at + 8), version: 1 },
                ]
                &&& f[at] == 132 && f.len() >= at + 24 ==> ms == seq![
                    Message::Leave { group: sixteen(f, at + 8) },
                ]
                &&& (f[at] == 131 || f[at] == 132) && f.len() < at + 24 ==> ms.len() == 0
                &&& f[at] != 130 && f[at] != 131 && f[at] != 132 && f[at] != 143 ==> ms.len() == 0
                &&& f[at] == 143 ==> ms == crate::snoop::mld_records(
                    f.skip(at),
                    8,
                    f[at + 6] * 0x100 + f[at + 7],
                )
            }
        }),
{
    if f.len() >= 62 && f.len() >= at + 8 {
        let b = f.skip(at);
        assert(b[0] == f[at] && b[6] == f[at + 6] && b[7] == f[at + 7]);
        lemma_sixteen(f, 22);
        if f.len() >= at + 24 {
            lemma_sixteen(b, 8);
            assert forall|i: int| 8 <= i < 24 implies #[trigger] b[i] == f[at + i] by {}
            assert(half(b, 8) == half(f, at + 8));
            assert(half(b, 16) == half(f, at + 16));
        }
    }
}

/// A group record of a version-3 report: its kind, its auxiliary words, its
/// sources, the group's address, then the sources and the auxiliary data.
pub struct GroupRecord {
    pub kind: u8,
    pub words: u8,
    pub sources: u16,
    pub group: Seq<u8>,
    pub rest: Seq<u8>,
}

/// Group records on the wire, one behind the other.
pub open spec fn written(records: Seq<GroupRecord>) -> Seq<u8>
    decreases records.len(),
{
    if records.len() == 0 {
        Seq::empty()
    } else {
        record_of(records[0]) + written(records.skip(1))
    }
}

/// One group record on the wire.
pub open spec fn record_of(r: GroupRecord) -> Seq<u8> {
    seq![r.kind, r.words, (r.sources / 0x100) as u8, (r.sources % 0x100) as u8] + r.group + r.rest
}

/// Are these records of groups with addresses of `size` bytes?
pub open spec fn sound(records: Seq<GroupRecord>, size: int) -> bool {
    forall|i: int|
        0 <= i < records.len() ==> (#[trigger] records[i]).group.len() == size
            && records[i].rest.len() == records[i].sources * size + records[i].words * 4
}

/// What a record says of its group. A filter that includes no source leaves
/// the group; any other known kind joins it.
pub open spec fn says(r: GroupRecord, group: IpAddr, version: u8) -> Seq<Message> {
    if r.kind < 1 || r.kind > 6 {
        Seq::empty()
    } else if r.sources == 0 && (r.kind == 1 || r.kind == 3) {
        seq![Message::Leave { group }]
    } else {
        seq![Message::Report { group, version }]
    }
}

/// What IGMPv3 records say, in order.
pub open spec fn igmp_told(records: Seq<GroupRecord>) -> Seq<Message>
    decreases records.len(),
{
    if records.len() == 0 {
        Seq::empty()
    } else {
        says(records[0], four(records[0].group, 0), 3) + igmp_told(records.skip(1))
    }
}

/// What MLDv2 records say, in order.
pub open spec fn mld_told(records: Seq<GroupRecord>) -> Seq<Message>
    decreases records.len(),
{
    if records.len() == 0 {
        Seq::empty()
    } else {
        says(records[0], sixteen(records[0].group, 0), 2) + mld_told(records.skip(1))
    }
}

proof fn lemma_sound_rest(records: Seq<GroupRecord>, size: int)
    requires
        records.len() > 0,
        sound(records, size),
    ensures
        sound(records.skip(1), size),
        records[0].group.len() == size,
        records[0].rest.len() == records[0].sources * size + records[0].words * 4,
{
    assert forall|i: int| 0 <= i < records.skip(1).len() implies (
    #[trigger] records.skip(1)[i]).group.len() == size && records.skip(1)[i].rest.len()
        == records.skip(1)[i].sources * size + records.skip(1)[i].words * 4 by {
        assert(records.skip(1)[i] == records[i + 1]);
    }
}

/// Every record of an IGMPv3 report is read, in order, whatever stands behind
/// the last one.
pub proof fn lemma_igmp_records_read(front: Seq<u8>, records: Seq<GroupRecord>, tail: Seq<u8>)
    requires
        sound(records, 4),
    ensures
        crate::snoop::igmp_records(
            front + (written(records) + tail),
            front.len() as int,
            records.len() as int,
        ) == igmp_told(records),
    decreases records.len(),
{
    if records.len() > 0 {
        let r = records[0];
        lemma_sound_rest(records, 4);
        let head = record_of(r);
        let more = written(records.skip(1));
        let b = front + (written(records) + tail);
        let at = front.len() as int;
        assert(b =~= (front + head) + (more + tail));
        lemma_igmp_records_read(front + head, records.skip(1), tail);
        assert(b[at] == r.kind && b[at + 1] == r.words);
        assert(b[at + 2] == (r.sources / 0x100) as u8 && b[at + 3] == (r.sources % 0x100) as u8);
        assert(b[at + 4] == r.group[0] && b[at + 5] == r.group[1] && b[at + 6] == r.group[2] && b[at
            + 7] == r.group[3]);
        assert(crate::bytes::word16(b, at + 2) == r.sources);
        assert((front + head).len() == at + 8 + r.sources * 4 + r.words * 4);
    }
}

/// Every record of an MLDv2 report is read, in order, whatever stands behind
/// the last one.
pub proof fn lemma_mld_records_read(front: Seq<u8>, records: Seq<GroupRecord>, tail: Seq<u8>)
    requires
        sound(records, 16),
    ensures
        crate::snoop::mld_records(
            front + (written(records) + tail),
            front.len() as int,
            records.len() as int,
        ) == mld_told(records),
    decreases records.len(),
{
    if records.len() > 0 {
        let r = records[0];
        lemma_sound_rest(records, 16);
        let head = record_of(r);
        let more = written(records.skip(1));
        let b = front + (written(records) + tail);
        let at = front.len() as int;
        assert(b =~= (front + head) + (more + tail));
        lemma_mld_records_read(front + head, records.skip(1), tail);
        assert(b[at] == r.kind && b[at + 1] == r.words);
        assert(b[at + 2] == (r.sources / 0x100) as u8 && b[at + 3] == (r.sources % 0x100) as u8);
        assert(crate::bytes::word16(b, at + 2) == r.sources);
        assert forall|i: int| 0 <= i < 16 implies #[trigger] r.group[i] == b[at + 4 + i] by {}
        lemma_sixteen(b, at + 4);
        assert(half(b, at + 4) == half(r.group, 0));
        assert(half(b, at + 12) == half(r.group, 8));
        assert((front + head).len() == at + 20 + r.sources * 16 + r.words * 4);
    }
}

/// A record that is cut off ends the report.
pub proof fn lemma_cut_records_end(b: Seq<u8>, at: int, left: int)
    ensures
        b.len() < at + 8 ==> crate::snoop::igmp_records(b, at, left).len() == 0,
        b.len() < at + 20 ==> crate::snoop::mld_records(b, at, left).len() == 0,
        crate::snoop::igmp_records(b, at, 0).len() == 0,
        crate::snoop::mld_records(b, at, 0).len() == 0,
{
}

// ---------------------------------------------------------------- queries

/// An IGMP general query is an ethernet frame to all systems' multicast
/// address with an IPv4 packet of 28 bytes and time to live 1, from the given
/// station and address; both checksums come out.
pub proof fn lemma_igmp_query_layout(mac: Seq<u8>, source: Ipv4)
    requires
        mac.len() == 6,
    ensures
        ({
            let f = crate::snoop::general_query(Family::Igmp, mac, IpAddr::V4(source));
            &&& f.len() == 42
            &&& f.take(6) == seq![1u8, 0u8, 0x5eu8, 0u8, 0u8, 1u8]
            &&& f.subrange(6, 12) == mac
            &&& f.subrange(12, 14) == seq![8u8, 0u8]
            &&& f.subrange(14, 24) == seq![
                0x45u8,
                0xc0u8,
                0u8,
                28u8,
                0u8,
                0u8,
                0u8,
                0u8,
                1u8,
                2u8,
            ]
            &&& f[26] * 0x100_0000 + f[27] * 0x1_0000 + f[28] * 0x100 + f[29] == source.bits
            &&& f.subrange(30, 34) == seq![224u8, 0u8, 0u8, 1u8]
            &&& crate::checksum::checksum(f.subrange(14, 34)) == 0
            &&& f[34] == 0x11
            &&& f[35] == 100
            &&& f.subrange(38, 42) == seq![0u8, 0u8, 0u8, 0u8]
            &&& crate::checksum::checksum(f.subrange(34, 42)) == 0
        }),
{
    let f = crate::snoop::general_query(Family::Igmp, mac, IpAddr::V4(source));
    let front = seq![0x45u8, 0xc0u8, 0u8, 28u8, 0u8, 0u8, 0u8, 0u8, 1u8, 2u8];
    let back = crate::bytes::be32(source.bits) + seq![224u8, 0u8, 0u8, 1u8];
    crate::checksum::lemma_checksum_closes(front, back);
    crate::checksum::lemma_checksum_closes(seq![0x11u8, 100u8], seq![0u8, 0u8, 0u8, 0u8]);
    let ip = crate::snoop::igmp_query_ip(source);
    let query = crate::snoop::igmp_query();
    assert(ip.len() == 20 && query.len() == 8);
    lemma_query_parts(seq![1u8, 0u8, 0x5eu8, 0u8, 0u8, 1u8], mac, seq![8u8, 0u8], ip, query);
    assert(ip.take(10) =~= front);
    assert(ip.skip(16) =~= seq![224u8, 0u8, 0u8, 1u8]);
    assert(ip.subrange(12, 16) =~= crate::bytes::be32(source.bits));
    assert(f.subrange(14, 24) =~= ip.take(10));
    assert(f.subrange(30, 34) =~= ip.skip(16));
    assert forall|i: int| 0 <= i < 4 implies f[26 + i] == #[trigger] crate::bytes::be32(
        source.bits,
    )[i] by {
        assert(f[14 + (12 + i)] == ip[12 + i]);
        assert(ip.subrange(12, 16)[i] == ip[12 + i]);
    }
    assert(f[26] == crate::bytes::be32(source.bits)[0]);
    assert(f[27] == crate::bytes::be32(source.bits)[1]);
    assert(f[28] == crate::bytes::be32(source.bits)[2]);
    assert(f[29] == crate::bytes::be32(source.bits)[3]);
    assert(f.subrange(38, 42) =~= query.skip(4));
    assert(query.skip(4) =~= seq![0u8, 0u8, 0u8, 0u8]);
}

proof fn lemma_query_parts(
    to: Seq<u8>,
    mac: Seq<u8>,
    kind: Seq<u8>,
    ip: Seq<u8>,
    query: Seq<u8>,
)
    requires
        to.len() == 6,
        mac.len() == 6,
        kind.len() == 2,
    ensures
        ({
            let f = to + mac + kind + ip + query;
            &&& f.len() == 14 + ip.len() + query.len()
            &&& f.take(6) == to
            &&& f.subrange(6, 12) == mac
            &&& f.subrange(12, 14) == kind
            &&& f.subrange(14, 14 + ip.len() as int) == ip
            &&& f.skip(14 + ip.len() as int) == query
            &&& f.subrange(14 + ip.len() as int, f.len() as int) == query
            &&& forall|i: int| 0 <= i < ip.len() ==> f[14 + i] == #[trigger] ip[i]
            &&& forall|i: int|
                0 <= i < query.len() ==> f[14 + ip.len() + i] == #[trigger] query[i]
        }),
{
    let f = to + mac + kind + ip + query;
    assert(f.take(6) =~= to);
    assert(f.subrange(6, 12) =~= mac);
    assert(f.subrange(12, 14) =~= kind);
    assert(f.subrange(14, 14 + ip.len() as int) =~= ip);
    assert(f.skip(14 + ip.len() as int) =~= query);
    assert(f.subrange(14 + ip.len() as int, f.len() as int) =~= query);
}

/// An MLD general query is an ethernet frame to all nodes' multicast address
/// with an IPv6 packet of 24 bytes and hop limit 1, from the given station and
/// address; the checksum over the pseudo header comes out.
pub proof fn lemma_mld_query_layout(mac: Seq<u8>, source: Ipv6)
    requires
        mac.len() == 6,
    ensures
        ({
            let f = crate::snoop::general_query(Family::Mld, mac, IpAddr::V6(source));
            let to = crate::ip::v6_bytes(Ipv6 { hi: 0xff02_0000_0000_0000, lo: 1 });
            let pseudo = crate::ip::v6_bytes(source) + to + seq![
                0u8,
                0u8,
                0u8,
                24u8,
                0u8,
                0u8,
                0u8,
                58u8,
            ];
            &&& f.len() == 78
            &&& f.take(6) == seq![0x33u8, 0x33u8, 0u8, 0u8, 0u8, 1u8]
            &&& f.subrange(6, 12) == mac
            &&& f.subrange(12, 14) == seq![0x86u8, 0xddu8]
            &&& f.subrange(14, 22) == seq![0x60u8, 0u8, 0u8, 0u8, 0u8, 24u8, 58u8, 1u8]
            &&& f.subrange(22, 38) == crate::ip::v6_bytes(source)
            &&& f.subrange(38, 54) == to
            &&& f[54] == 130
            &&& f[55] == 0
            &&& f.subrange(58, 62) == seq![0x27u8, 0x10u8, 0u8, 0u8]
            &&& forall|i: int| 62 <= i < 78 ==> #[trigger] f[i] == 0
            &&& crate::checksum::checksum(pseudo + f.skip(54)) == 0
        }),
{
    let f = crate::snoop::general_query(Family::Mld, mac, IpAddr::V6(source));
    let from = crate::ip::v6_bytes(source);
    let to = crate::ip::v6_bytes(crate::snoop::all_nodes());
    let first = seq![0x60u8, 0u8, 0u8, 0u8, 0u8, 24u8, 58u8, 1u8];
    let query = crate::snoop::mld_query(source);
    let tail = crate::snoop::mld_query_tail();
    let ip = first + from + to;
    assert(from.len() == 16 && to.len() == 16 && query.len() == 24);
    assert(f =~= seq![0x33u8, 0x33u8, 0u8, 0u8, 0u8, 1u8] + mac + seq![0x86u8, 0xddu8] + ip
        + query);
    lemma_query_parts(
        seq![0x33u8, 0x33u8, 0u8, 0u8, 0u8, 1u8],
        mac,
        seq![0x86u8, 0xddu8],
        ip,
        query,
    );
    assert(f.subrange(14, 54) == ip);
    assert(f.subrange(14, 22) =~= ip.take(8));
    assert(ip.take(8) =~= first);
    assert(f.subrange(22, 38) =~= ip.subrange(8, 24));
    assert(ip.subrange(8, 24) =~= from);
    assert(f.subrange(38, 54) =~= ip.subrange(24, 40));
    assert(ip.subrange(24, 40) =~= to);
    assert(f.subrange(58, 62) =~= query.subrange(4, 8));
    assert(query.subrange(4, 8) =~= seq![0x27u8, 0x10u8, 0u8, 0u8]);
    assert forall|i: int| 62 <= i < 78 implies #[trigger] f[i] == 0 by {
        assert(f[14 + ip.len() + (i - 54)] == query[i - 54]);
    }
    let pseudo = from + to + seq![0u8, 0u8, 0u8, 24u8, 0u8, 0u8, 0u8, 58u8];
    assert(crate::snoop::mld_pseudo(source) =~= pseudo);
    let front = crate::snoop::mld_pseudo(source) + seq![130u8, 0u8];
    crate::checksum::lemma_checksum_closes(front, tail);
    let sum = crate::checksum::checksum(front + crate::bytes::be16(0) + tail);
    assert(pseudo + query =~= front + crate::bytes::be16(sum as u16) + tail);
}

// ----------------------------------------------------------- memberships

/// Is snooping on in a VLAN? It is where neither the switch nor the VLAN
/// turned it off.
pub open spec fn on(config: Config, vlan: u16) -> bool {
    !config.disabled && (config.vlans@.dom().contains(vlan) ==> !config.vlans@[vlan].disabled)
}

/// A report makes its port a member of the group from now on, takes back a
/// leave, and touches nothing else.
pub proof fn lemma_reports_join(
    m: VlanModel,
    config: Config,
    family: Family,
    vlan: u16,
    port: Seq<char>,
    group: IpAddr,
    version: u8,
    now: u64,
)
    ensures
        ({
            let r = crate::snoop::applied(
                m,
                config,
                family,
                vlan,
                port,
                Message::Report { group, version },
                now,
            );
            &&& r.groups.dom() == m.groups.dom().insert(group)
            &&& r.groups[group].dom().contains(port)
            &&& r.groups[group][port].last_report == now
            &&& r.groups[group][port].version == version
            &&& r.groups[group][port].pending_leave is None
            &&& forall|p: Seq<char>|
                p != port ==> (#[trigger] r.groups[group].dom().contains(p) <==> (
                m.groups.dom().contains(group) && m.groups[group].dom().contains(p)))
            &&& forall|p: Seq<char>|
                p != port && m.groups.dom().contains(group) && m.groups[group].dom().contains(p)
                    ==> #[trigger] r.groups[group][p] == m.groups[group][p]
            &&& forall|g: IpAddr|
                g != group && m.groups.dom().contains(g) ==> #[trigger] r.groups[g] == m.groups[g]
            &&& r.dyn_mrouters == m.dyn_mrouters
            &&& r.other_querier == m.other_querier
            &&& r.last_query_tx == m.last_query_tx
            &&& r.pushed_groups == m.pushed_groups
            &&& r.pushed_mrouters == m.pushed_mrouters
        }),
{
    let r = crate::snoop::applied(
        m,
        config,
        family,
        vlan,
        port,
        Message::Report { group, version },
        now,
    );
    assert(r.groups.dom() =~= m.groups.dom().insert(group));
}

/// A leave takes the port out at once where the VLAN leaves fast; elsewhere
/// the membership is marked, with the report that it rests on kept. Ports of
/// other groups, other ports and ports that never joined stay as they were.
pub proof fn lemma_leaves_end(
    m: VlanModel,
    config: Config,
    family: Family,
    vlan: u16,
    port: Seq<char>,
    group: IpAddr,
    now: u64,
)
    ensures
        ({
            let r = crate::snoop::applied(
                m,
                config,
                family,
                vlan,
                port,
                Message::Leave { group },
                now,
            );
            let member = m.groups.dom().contains(group) && m.groups[group].dom().contains(port);
            let fast = config.vlans@.dom().contains(vlan) && config.vlans@[vlan].fast_leave;
            &&& r.groups.dom() == m.groups.dom()
            &&& !member ==> forall|g: IpAddr|
                m.groups.dom().contains(g) ==> #[trigger] r.groups[g] == m.groups[g]
            &&& member && fast ==> r.groups[group].dom() == m.groups[group].dom().remove(port)
            &&& member && !fast ==> {
                &&& r.groups[group].dom() == m.groups[group].dom()
                &&& r.groups[group][port].pending_leave == Some(now)
                &&& r.groups[group][port].last_report == m.groups[group][port].last_report
                &&& r.groups[group][port].version == m.groups[group][port].version
            }
            &&& forall|p: Seq<char>|
                p != port && m.groups.dom().contains(group) && m.groups[group].dom().contains(p)
                    ==> #[trigger] r.groups[group][p] == m.groups[group][p]
            &&& forall|g: IpAddr|
                g != group && m.groups.dom().contains(g) ==> #[trigger] r.groups[g] == m.groups[g]
            &&& r.dyn_mrouters == m.dyn_mrouters
            &&& r.other_querier == m.other_querier
            &&& r.last_query_tx == m.last_query_tx
            &&& r.pushed_groups == m.pushed_groups
            &&& r.pushed_mrouters == m.pushed_mrouters
        }),
{
    let r = crate::snoop::applied(m, config, family, vlan, port, Message::Leave { group }, now);
    assert(r.groups.dom() =~= m.groups.dom());
    if m.groups.dom().contains(group) {
        if !m.groups[group].dom().contains(port) {
            assert(m.groups[group].remove(port) =~= m.groups[group]);
        } else {
            assert(m.groups[group].remove(port).dom() =~= m.groups[group].dom().remove(port));
            assert(m.groups[group].insert(
                port,
                Member { pending_leave: Some(now), ..m.groups[group][port] },
            ).dom() =~= m.groups[group].dom());
        }
    }
}

/// The address that this switch queries with: the one that was set, or the
/// unspecified address of the family.
pub open spec fn own_address(config: Config, family: Family, vlan: u16) -> IpAddr {
    if config.vlans@.dom().contains(vlan) && config.vlans@[vlan].querier_address is Some {
        config.vlans@[vlan].querier_address->0
    } else if family is Igmp {
        IpAddr::V4(Ipv4 { bits: 0 })
    } else {
        IpAddr::V6(Ipv6 { hi: 0, lo: 0 })
    }
}

/// A lower address than another: the IPv4 ones first, then by number.
pub open spec fn lower(a: IpAddr, b: IpAddr) -> bool {
    match a {
        IpAddr::V4(x) => b matches IpAddr::V4(y) ==> x.bits < y.bits,
        IpAddr::V6(x) => b matches IpAddr::V6(y) && x.hi * 0x1_0000_0000_0000_0000 + x.lo < y.hi
            * 0x1_0000_0000_0000_0000 + y.lo,
    }
}

/// A query makes its port a router port from now on; one from a lower address
/// than ours makes its sender the querier. No membership changes.
pub proof fn lemma_queries_make_routers(
    m: VlanModel,
    config: Config,
    family: Family,
    vlan: u16,
    port: Seq<char>,
    source: IpAddr,
    now: u64,
)
    ensures
        ({
            let r = crate::snoop::applied(
                m,
                config,
                family,
                vlan,
                port,
                Message::Query { source },
                now,
            );
            &&& r.dyn_mrouters == m.dyn_mrouters.insert(port, now)
            &&& lower(source, own_address(config, family, vlan)) ==> r.other_querier == Some(
                (source, now),
            )
            &&& !lower(source, own_address(config, family, vlan)) ==> r.other_querier
                == m.other_querier
            &&& r.groups == m.groups
            &&& r.last_query_tx == m.last_query_tx
            &&& r.pushed_groups == m.pushed_groups
            &&& r.pushed_mrouters == m.pushed_mrouters
        }),
{
}

/// The messages of a packet count one by one, in the packet's VLAN only.
pub proof fn lemma_messages_count_in_order(
    models: Map<u16, VlanModel>,
    config: Config,
    family: Family,
    vlan: u16,
    port: Seq<char>,
    ms: Seq<Message>,
    now: u64,
    n: int,
    other: u16,
)
    requires
        0 < n <= ms.len(),
        other != vlan,
    ensures
        ({
            let before = crate::snoop::heard(
                models,
                config,
                family,
                vlan,
                port,
                ms,
                now,
                n - 1,
            );
            let after = crate::snoop::heard(models, config, family, vlan, port, ms, now, n);
            &&& crate::snoop::heard(models, config, family, vlan, port, ms, now, 0) == models
            &&& after.dom().contains(vlan)
            &&& before.dom().contains(vlan) ==> after[vlan] == crate::snoop::applied(
                before[vlan],
                config,
                family,
                vlan,
                port,
                ms[n - 1],
                now,
            )
            &&& after.dom().contains(other) <==> models.dom().contains(other)
            &&& models.dom().contains(other) ==> after[other] == models[other]
        }),
    decreases n,
{
    if n > 1 {
        lemma_messages_count_in_order(
            models,
            config,
            family,
            vlan,
            port,
            ms,
            now,
            n - 1,
            other,
        );
    }
}

/// A VLAN that nothing was heard on starts with no member, no router, no
/// querier and nothing pushed.
pub proof fn lemma_vlans_start_blank(models: Map<u16, VlanModel>, vlan: u16)
    requires
        !models.dom().contains(vlan),
    ensures
        ({
            let m = crate::snoop::model_at(models, vlan);
            &&& m.groups.dom() == Set::<IpAddr>::empty()
            &&& m.dyn_mrouters.dom() == Set::<Seq<char>>::empty()
            &&& m.other_querier is None
            &&& m.last_query_tx is None
            &&& m.pushed_groups.dom() == Set::<IpAddr>::empty()
            &&& m.pushed_mrouters is None
        }),
{
    assert(crate::snoop::blank().groups.dom() =~= Set::<IpAddr>::empty());
    assert(crate::snoop::blank().dyn_mrouters.dom() =~= Set::<Seq<char>>::empty());
    assert(crate::snoop::blank().pushed_groups.dom() =~= Set::<IpAddr>::empty());
}

// ------------------------------------------------------------- a pass

/// Is a member still one? Its last report is younger than the robustness
/// times the query interval and ten seconds, and no leave of it is as old as
/// the last-member interval.
pub open spec fn still_member(member: Member, config: Config, now: u64) -> bool {
    &&& now < member.last_report + config.query_interval * config.robustness + 10_000
    &&& member.pending_leave matches Some(at) ==> now < at + config.last_member_interval
        && config.last_member_interval > 0
}

/// Is a port still a router port? It was set so, or heard a query no longer
/// ago than two query intervals and ten seconds.
pub open spec fn still_router(
    m: VlanModel,
    config: Config,
    vlan: u16,
    port: Seq<char>,
    now: u64,
) -> bool {
    ||| config.vlans@.dom().contains(vlan)
        && config.vlans@[vlan].static_mrouters.deep_view().contains(port)
    ||| m.dyn_mrouters.dom().contains(port) && now < m.dyn_mrouters[port] + config.query_interval
        * 2 + 10_000
}

/// Memberships that ran out end with a pass, with all of them where snooping
/// is off; the others stay as they were, and a group lasts as long as it has
/// a member.
pub proof fn lemma_memberships_run_out(
    m: VlanModel,
    config: Config,
    vlan: u16,
    now: u64,
    group: IpAddr,
    port: Seq<char>,
)
    ensures
        ({
            let r = crate::snoop::vlan_stepped(m, config, vlan, now);
            let stays = on(config, vlan) && m.groups.dom().contains(group)
                && m.groups[group].dom().contains(port) && still_member(
                m.groups[group][port],
                config,
                now,
            );
            &&& stays <==> r.groups.dom().contains(group) && r.groups[group].dom().contains(port)
            &&& stays ==> r.groups[group][port] == m.groups[group][port]
            &&& r.groups.dom().contains(group) ==> exists|p: Seq<char>|
                #[trigger] r.groups[group].dom().contains(p)
        }),
{
    let r = crate::snoop::vlan_stepped(m, config, vlan, now);
    let s = crate::snoop::shed(m, config.enabled(vlan));
    assert(config.enabled(vlan) == on(config, vlan));
    assert(config.query_interval * config.robustness >= 0) by (nonlinear_arith)
        requires
            config.query_interval >= 0,
            config.robustness >= 0,
    ;
    let live = crate::snoop::live_members(s.groups[group], config, now);
    if s.groups.dom().contains(group) && live.dom().contains(port) {
        assert(crate::snoop::any_member(live));
        assert(r.groups.dom().contains(group));
    }
}

/// Router ports that ran out and a querier that fell silent for two query
/// intervals and ten seconds are forgotten.
pub proof fn lemma_routers_run_out(
    m: VlanModel,
    config: Config,
    vlan: u16,
    now: u64,
    port: Seq<char>,
)
    ensures
        ({
            let r = crate::snoop::vlan_stepped(m, config, vlan, now);
            let stays = on(config, vlan) && m.dyn_mrouters.dom().contains(port) && now
                < m.dyn_mrouters[port] + config.query_interval * 2 + 10_000;
            &&& stays <==> r.dyn_mrouters.dom().contains(port)
            &&& stays ==> r.dyn_mrouters[port] == m.dyn_mrouters[port]
            &&& r.other_querier == (if on(config, vlan) && (m.other_querier matches Some(q) && now
                < q.1 + config.query_interval * 2 + 10_000) {
                m.other_querier
            } else {
                None
            })
        }),
{
    assert(config.enabled(vlan) == on(config, vlan));
}

/// What the hardware is told of a group after a pass: its members and every
/// router port; and of no group without a member.
pub proof fn lemma_groups_reach_members_and_routers(
    m: VlanModel,
    config: Config,
    vlan: u16,
    now: u64,
    group: IpAddr,
    port: Seq<char>,
)
    ensures
        ({
            let r = crate::snoop::vlan_stepped(m, config, vlan, now);
            &&& r.pushed_groups.dom().contains(group) <==> exists|p: Seq<char>|
                on(config, vlan) && m.groups.dom().contains(group)
                    && #[trigger] m.groups[group].dom().contains(p) && still_member(
                    m.groups[group][p],
                    config,
                    now,
                )
            &&& r.pushed_groups.dom().contains(group) ==> (r.pushed_groups[group].contains(port)
                <==> (m.groups[group].dom().contains(port) && still_member(
                m.groups[group][port],
                config,
                now,
            )) || still_router(m, config, vlan, port, now))
        }),
{
    let r = crate::snoop::vlan_stepped(m, config, vlan, now);
    lemma_memberships_run_out(m, config, vlan, now, group, port);
    assert forall|p: Seq<char>| on(config, vlan) && m.groups.dom().contains(group)
        && #[trigger] m.groups[group].dom().contains(p) && still_member(
        m.groups[group][p],
        config,
        now,
    ) implies r.groups.dom().contains(group) by {
        lemma_memberships_run_out(m, config, vlan, now, group, p);
    }
    if r.groups.dom().contains(group) {
        let p = choose|p: Seq<char>| #[trigger] r.groups[group].dom().contains(p);
        lemma_memberships_run_out(m, config, vlan, now, group, p);
        assert(m.groups[group].dom().contains(p));
    }
    assert(config.static_mrouters(vlan).contains(port) <==> config.vlans@.dom().contains(vlan)
        && config.vlans@[vlan].static_mrouters.deep_view().contains(port));
}

/// Unknown multicast is kept to the router ports where snooping is on and
/// there is a router port or this switch may query; elsewhere it floods.
pub proof fn lemma_floods_are_scoped(
    m: VlanModel,
    config: Config,
    vlan: u16,
    now: u64,
    port: Seq<char>,
)
    ensures
        ({
            let r = crate::snoop::vlan_stepped(m, config, vlan, now);
            let may_query = config.vlans@.dom().contains(vlan) && config.vlans@[vlan].querier;
            &&& r.pushed_mrouters is Some
            &&& r.pushed_mrouters matches Some(x) ==> {
                &&& x.0 ==> on(config, vlan)
                &&& x.0 ==> may_query || exists|p: Seq<char>|
                    still_router(m, config, vlan, p, now)
                &&& on(config, vlan) && (may_query || still_router(m, config, vlan, port, now))
                    ==> x.0
                &&& x.1.contains(port) <==> x.0 && still_router(m, config, vlan, port, now)
            }
        }),
{
    let r = crate::snoop::vlan_stepped(m, config, vlan, now);
    let routers = crate::snoop::mrouters(m, config, vlan, now);
    assert(config.enabled(vlan) == on(config, vlan));
    assert forall|p: Seq<char>| #[trigger] routers.contains(p) <==> still_router(
        m,
        config,
        vlan,
        p,
        now,
    ) by {
        assert(config.static_mrouters(vlan).contains(p) <==> config.vlans@.dom().contains(vlan)
            && config.vlans@[vlan].static_mrouters.deep_view().contains(p));
    }
    if routers.contains(port) {
        assert(routers != Set::<Seq<char>>::empty());
    }
    if routers != Set::<Seq<char>>::empty() {
        assert(exists|p: Seq<char>| #[trigger] routers.contains(p)) by {
            if forall|p: Seq<char>| !#[trigger] routers.contains(p) {
                assert(routers =~= Set::<Seq<char>>::empty());
            }
        }
        let p = choose|p: Seq<char>| #[trigger] routers.contains(p);
        assert(still_router(m, config, vlan, p, now));
    }
}

/// Is it this switch's turn to query? Snooping and the querier are on, no
/// other querier was heard of late, and a query interval went by since the
/// last query.
pub open spec fn may_query_now(m: VlanModel, config: Config, vlan: u16, now: u64) -> bool {
    &&& on(config, vlan)
    &&& config.vlans@.dom().contains(vlan) && config.vlans@[vlan].querier
    &&& m.other_querier matches Some(q) ==> now >= q.1 + config.query_interval * 2 + 10_000
    &&& m.last_query_tx matches Some(at) ==> now >= at + config.query_interval
        || config.query_interval == 0
}

/// Queries leave on every port of the VLAN, in order, when it is this switch's
/// turn, from its own address; at no other time.
pub proof fn lemma_queries_are_sent(
    out: VlanOutput,
    m: VlanModel,
    config: Config,
    family: Family,
    mac: Seq<u8>,
    vlan_ports: Map<u16, Vec<String>>,
    vlan: u16,
    now: u64,
)
    requires
        crate::snoop::is_output(out, m, config, family, mac, vlan_ports, vlan, now),
    ensures
        ({
            let r = crate::snoop::vlan_stepped(m, config, vlan, now);
            let due = may_query_now(m, config, vlan, now);
            &&& r.last_query_tx == (if due {
                Some(now)
            } else {
                m.last_query_tx
            })
            &&& !due ==> out.queries@.len() == 0
            &&& due && !vlan_ports.dom().contains(vlan) ==> out.queries@.len() == 0
            &&& due && vlan_ports.dom().contains(vlan) ==> {
                &&& out.queries@.len() == vlan_ports[vlan]@.len()
                &&& forall|i: int|
                    0 <= i < out.queries@.len() ==> (#[trigger] out.queries@[i]).0@
                        == vlan_ports[vlan]@[i]@ && out.queries@[i].1@
                        == crate::snoop::general_query(
                        family,
                        mac,
                        own_address(config, family, vlan),
                    )
            }
        }),
{
    assert(config.enabled(vlan) == on(config, vlan));
    assert(config.source(family, vlan) == own_address(config, family, vlan));
    if vlan_ports.dom().contains(vlan) {
        assert(vlan_ports[vlan].deep_view().len() == vlan_ports[vlan]@.len());
        assert forall|i: int| 0 <= i < vlan_ports[vlan]@.len() implies
            #[trigger] vlan_ports[vlan].deep_view()[i] == vlan_ports[vlan]@[i]@ by {}
    }
}

/// What changed goes to the hardware once, and nothing else: a group with its
/// ports where they are others than before, and its removal where it has no
/// member any more.
pub proof fn lemma_changed_groups_are_pushed(
    out: VlanOutput,
    m: VlanModel,
    config: Config,
    family: Family,
    mac: Seq<u8>,
    vlan_ports: Map<u16, Vec<String>>,
    vlan: u16,
    now: u64,
    group: IpAddr,
)
    requires
        crate::snoop::is_output(out, m, config, family, mac, vlan_ports, vlan, now),
    ensures
        ({
            let after = crate::snoop::vlan_stepped(m, config, vlan, now).pushed_groups;
            let sent = out.groups@;
            &&& (exists|i: int|
                0 <= i < sent.len() && (#[trigger] sent[i]).group == group && !sent[i].remove)
                <==> after.dom().contains(group) && !(m.pushed_groups.dom().contains(group)
                && m.pushed_groups[group] == after[group])
            &&& (exists|i: int|
                0 <= i < sent.len() && (#[trigger] sent[i]).group == group && sent[i].remove)
                <==> m.pushed_groups.dom().contains(group) && !after.dom().contains(group)
            &&& forall|i: int|
                0 <= i < sent.len() ==> {
                    &&& (#[trigger] sent[i]).vlan == vlan
                    &&& sent[i].remove ==> sent[i].ports@.len() == 0
                    &&& !sent[i].remove ==> forall|p: Seq<char>| #[trigger]
                        sent[i].ports.deep_view().contains(p) <==> after[sent[i].group].contains(p)
                }
            &&& forall|i: int, j: int|
                0 <= i < j < sent.len() ==> (#[trigger] sent[i]).group != (
                #[trigger] sent[j]).group || sent[i].remove != sent[j].remove
        }),
{
    let after = crate::snoop::vlan_stepped(m, config, vlan, now).pushed_groups;
    let sent = out.groups@;
    if after.dom().contains(group) && !(m.pushed_groups.dom().contains(group)
        && m.pushed_groups[group] == after[group]) {
        assert(crate::snoop::has_update(sent, group, false));
    }
    if m.pushed_groups.dom().contains(group) && !after.dom().contains(group) {
        assert(crate::snoop::has_update(sent, group, true));
    }
    assert forall|i: int| 0 <= i < sent.len() && !(#[trigger] sent[i]).remove implies forall|
        p: Seq<char>,
    | #[trigger]
        sent[i].ports.deep_view().contains(p) <==> after[sent[i].group].contains(p) by {
        assert(crate::snoop::is_update(sent[i], vlan, after, m.pushed_groups));
        assert forall|p: Seq<char>| #[trigger]
            sent[i].ports.deep_view().contains(p) <==> after[sent[i].group].contains(p) by {
            assert(crate::ordmap::name_set(sent[i].ports.deep_view()).contains(p)
                == after[sent[i].group].contains(p));
        }
    }
}

/// The router ports go to the hardware where they or the restriction changed.
pub proof fn lemma_changed_routers_are_pushed(
    out: VlanOutput,
    m: VlanModel,
    config: Config,
    family: Family,
    mac: Seq<u8>,
    vlan_ports: Map<u16, Vec<String>>,
    vlan: u16,
    now: u64,
)
    requires
        crate::snoop::is_output(out, m, config, family, mac, vlan_ports, vlan, now),
    ensures
        ({
            let after = crate::snoop::vlan_stepped(m, config, vlan, now).pushed_mrouters;
            &&& out.mrouters is Some <==> m.pushed_mrouters != after
            &&& out.mrouters matches Some(u) ==> {
                &&& u.vlan == vlan
                &&& after matches Some(x) && u.restrict == x.0 && forall|p: Seq<char>| #[trigger]
                    u.ports.deep_view().contains(p) <==> x.1.contains(p)
            }
        }),
{
    let after = crate::snoop::vlan_stepped(m, config, vlan, now).pushed_mrouters;
    if let Some(u) = out.mrouters {
        if let Some(x) = after {
            assert forall|p: Seq<char>| #[trigger]
                u.ports.deep_view().contains(p) <==> x.1.contains(p) by {
                assert(crate::ordmap::name_set(u.ports.deep_view()).contains(p) == x.1.contains(p));
            }
        }
    }
}

/// A pass takes the VLANs one by one, and a VLAN that it does not take stays
/// as it was.
pub proof fn lemma_passes_take_each_vlan(
    models: Map<u16, VlanModel>,
    config: Config,
    list: Seq<u16>,
    now: u64,
    n: int,
    other: u16,
)
    requires
        0 <= n <= list.len(),
    ensures
        ({
            let after = crate::snoop::evaluated(models, config, list, now, n);
            &&& !list.take(n).contains(other) ==> (after.dom().contains(other)
                <==> models.dom().contains(other)) && (models.dom().contains(other)
                ==> after[other] == models[other])
            &&& n > 0 ==> after.dom().contains(list[n - 1]) && after[list[n - 1]]
                == crate::snoop::vlan_stepped(
                crate::snoop::model_at(
                    crate::snoop::evaluated(models, config, list, now, n - 1),
                    list[n - 1],
                ),
                config,
                list[n - 1],
                now,
            )
        }),
    decreases n,
{
    if n > 0 {
        lemma_passes_take_each_vlan(models, config, list, now, n - 1, other);
        if !list.take(n).contains(other) {
            assert(list.take(n)[n - 1] == list[n - 1]);
            assert(list.take(n - 1) =~= list.take(n).take(n - 1));
            assert forall|i: int| 0 <= i < n - 1 implies #[trigger] list.take(n - 1)[i] != other by {
                assert(list.take(n)[i] == list.take(n - 1)[i]);
            }
        }
    }
}

// ------------------------------------------------------------ displays

/// What a VLAN's row shows is what is set for it and what was heard on it.
pub proof fn lemma_vlans_are_shown(row: VlanSnapshot, m: VlanModel, config: Config, now: u64)
    requires
        crate::snoop::shows_vlan(row, m, config, now),
    ensures
        ({
            let set = config.vlans@.dom().contains(row.vlan);
            let c = config.vlans@[row.vlan];
            &&& row.enabled == on(config, row.vlan)
            &&& row.fast_leave == (set && c.fast_leave)
            &&& row.querier_enabled == (set && c.querier)
            &&& row.querier_address == (if set {
                c.querier_address
            } else {
                None
            })
            &&& row.querier_active <==> on(config, row.vlan) && set && c.querier && (
            m.other_querier matches Some(q) ==> now >= q.1 + config.query_interval * 2 + 10_000)
            &&& set ==> row.static_mrouters.deep_view() == c.static_mrouters.deep_view()
            &&& !set ==> row.static_mrouters@.len() == 0
            &&& forall|p: Seq<char>| #[trigger]
                row.dynamic_mrouters.deep_view().contains(p) <==> m.dyn_mrouters.dom().contains(p)
        }),
{
    assert(config.enabled(row.vlan) == on(config, row.vlan));
    assert(row.static_mrouters.deep_view().len() == row.static_mrouters@.len());
    assert forall|p: Seq<char>| #[trigger]
        row.dynamic_mrouters.deep_view().contains(p) <==> m.dyn_mrouters.dom().contains(p) by {
        assert(crate::ordmap::name_set(row.dynamic_mrouters.deep_view()).contains(p)
            == m.dyn_mrouters.dom().contains(p));
    }
}

/// Every group is shown once, by rising address, with its member ports and the
/// highest version that one of them speaks.
pub proof fn lemma_groups_are_shown(
    rows: Seq<GroupSnapshot>,
    groups: Map<IpAddr, Map<Seq<char>, Member>>,
    i: int,
    port: Seq<char>,
)
    requires
        crate::snoop::shows_groups(rows, groups),
        0 <= i < rows.len(),
    ensures
        groups.dom().contains(rows[i].group),
        rows[i].ports.deep_view().contains(port) <==> groups[rows[i].group].dom().contains(port),
        groups[rows[i].group].dom().contains(port) ==> groups[rows[i].group][port].version
            <= rows[i].version,
        groups[rows[i].group].dom().contains(port) ==> exists|p: Seq<char>| #[trigger]
            groups[rows[i].group].dom().contains(p) && groups[rows[i].group][p].version
                == rows[i].version,
        forall|j: int|
            i < j < rows.len() ==> lower(rows[i].group, (#[trigger] rows[j]).group),
{
    let members = groups[rows[i].group];
    assert(groups.dom().contains(rows[i].group));
    assert(crate::ordmap::name_set(rows[i].ports.deep_view()).contains(port)
        == members.dom().contains(port));
    if members.dom().contains(port) {
        assert(crate::snoop::any_member(members));
    }
}

} // verus!
