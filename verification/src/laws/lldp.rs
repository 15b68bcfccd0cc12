//! Laws of LLDP.

use vstd::prelude::*;

use crate::lldp::{
    Config, Learned, NeighborModel, PortInfo, PortModel, PortSnapshot, PortState, System,
};

verus! {

// ------------------------------------------------------------ on the wire

/// A TLV on the wire: seven bits of type, nine of length, the value.
pub open spec fn tlv(t: (u8, Seq<u8>)) -> Seq<u8> {
    seq![(t.0 * 2 + t.1.len() / 256) as u8, (t.1.len() % 256) as u8] + t.1
}

/// TLVs one behind the other.
pub open spec fn written(list: Seq<(u8, Seq<u8>)>) -> Seq<u8>
    decreases list.len(),
{
    if list.len() == 0 {
        Seq::empty()
    } else {
        tlv(list[0]) + written(list.skip(1))
    }
}

/// TLVs that a frame can hold before the end mark.
pub open spec fn sound(list: Seq<(u8, Seq<u8>)>) -> bool {
    forall|i: int|
        0 <= i < list.len() ==> 0 < (#[trigger] list[i]).0 < 128 && list[i].1.len() <= 511
}

/// TLVs that were written are read back, up to the end mark, whatever follows
/// it.
pub proof fn lemma_tlvs_read(front: Seq<u8>, list: Seq<(u8, Seq<u8>)>, rest: Seq<u8>)
    requires
        sound(list),
    ensures
        crate::lldp::tlvs(
            front + (written(list) + (seq![0u8, 0u8] + rest)),
            front.len() as int,
        ) == Some(list),
    decreases list.len(),
{
    let tail = seq![0u8, 0u8] + rest;
    let b = front + (written(list) + tail);
    let at = front.len() as int;
    if list.len() == 0 {
        assert(b[at] == 0 && b[at + 1] == 0);
        assert(crate::bytes::word16(b, at) == 0);
        assert(list =~= Seq::empty());
    } else {
        let (kind, value) = list[0];
        assert(0 < list[0].0 < 128 && list[0].1.len() <= 511);
        let head = tlv(list[0]);
        let more = written(list.skip(1));
        assert forall|i: int| 0 <= i < list.skip(1).len() implies 0 < (
        #[trigger] list.skip(1)[i]).0 < 128 && list.skip(1)[i].1.len() <= 511 by {
            assert(list.skip(1)[i] == list[i + 1]);
        }
        assert(b =~= (front + head) + (more + tail));
        lemma_tlvs_read(front + head, list.skip(1), rest);
        assert(b[at] == (kind * 2 + value.len() / 256) as u8 && b[at + 1] == (value.len()
            % 256) as u8);
        assert(crate::bytes::word16(b, at) == kind * 512 + value.len());
        assert(b.subrange(at + 2, at + 2 + value.len()) =~= value);
        assert(seq![list[0]] + list.skip(1) =~= list);
    }
}

/// A frame is a neighbor's where it has the LLDP ethertype and its TLVs are
/// whole, with a chassis, a port and a lifetime.
pub proof fn lemma_frames_read(
    to: Seq<u8>,
    from: Seq<u8>,
    list: Seq<(u8, Seq<u8>)>,
    rest: Seq<u8>,
)
    requires
        to.len() == 6,
        from.len() == 6,
        sound(list),
    ensures
        ({
            let f = to + from + seq![0x88u8, 0xccu8] + (written(list) + (seq![0u8, 0u8] + rest));
            let n = crate::lldp::said(list);
            let whole = forall|i: int|
                0 <= i < list.len() ==> {
                    &&& (#[trigger] list[i]).0 == 1 ==> list[i].1.len() >= 1
                    &&& list[i].0 == 2 ==> list[i].1.len() >= 1
                    &&& list[i].0 == 3 ==> list[i].1.len() >= 2
                };
            let lasts = exists|i: int| 0 <= i < list.len() && (#[trigger] list[i]).0 == 3;
            &&& whole && lasts && n.chassis_id.len() > 0 && n.port_id.len() > 0
                ==> crate::lldp::decoded(f) == Some(n)
            &&& !(whole && lasts && n.chassis_id.len() > 0 && n.port_id.len() > 0)
                ==> crate::lldp::decoded(f) is None
        }),
{
    let front = to + from + seq![0x88u8, 0xccu8];
    let f = front + (written(list) + (seq![0u8, 0u8] + rest));
    lemma_tlvs_read(front, list, rest);
    assert(f[12] == 0x88 && f[13] == 0xcc);
    assert(crate::bytes::word16(f, 12) == 0x88cc);
    lemma_last(list, 3);
    if crate::lldp::any_malformed(list) {
        let i = choose|i: int| 0 <= i < list.len() && crate::lldp::malformed(#[trigger] list[i]);
        assert(crate::lldp::malformed(list[i]));
    }
    assert forall|i: int|
        0 <= i < list.len() && !crate::lldp::any_malformed(list) implies !crate::lldp::malformed(
        #[trigger] list[i],
    ) by {}
}

/// A frame that is too short or of another ethertype is no neighbor's.
pub proof fn lemma_other_frames(f: Seq<u8>)
    ensures
        f.len() < 14 || f[12] != 0x88 || f[13] != 0xcc ==> crate::lldp::decoded(f) is None,
{
}

proof fn lemma_last(list: Seq<(u8, Seq<u8>)>, kind: u8)
    ensures
        crate::lldp::last_tlv(list, kind) is Some <==> exists|i: int|
            0 <= i < list.len() && (#[trigger] list[i]).0 == kind,
    decreases list.len(),
{
    if list.len() > 0 {
        let front = list.drop_last();
        lemma_last(front, kind);
        assert(list.last() == list[list.len() - 1]);
        if exists|i: int| 0 <= i < front.len() && (#[trigger] front[i]).0 == kind {
            let i = choose|i: int| 0 <= i < front.len() && (#[trigger] front[i]).0 == kind;
            assert(list[i].0 == kind);
        }
        if exists|i: int| 0 <= i < list.len() && (#[trigger] list[i]).0 == kind {
            let i = choose|i: int| 0 <= i < list.len() && (#[trigger] list[i]).0 == kind;
            if i < front.len() {
                assert(front[i].0 == kind);
            }
        }
    }
}

/// One more TLV says one more thing of the neighbor, the last of a type
/// counts, and the rest stays as it was said.
pub proof fn lemma_tlvs_say(list: Seq<(u8, Seq<u8>)>, kind: u8, body: Seq<u8>)
    requires
        kind == 1 || kind == 2 ==> body.len() >= 1,
        kind == 3 ==> body.len() >= 2,
    ensures
        ({
            let had = crate::lldp::said(list);
            let n = crate::lldp::said(list.push((kind, body)));
            let address = kind == 8 && body.len() >= 6 && body[0] == 5 && body[1] == 1;
            &&& kind == 1 ==> n.chassis_id == (if body[0] == 4 && body.len() == 7 {
                crate::mac::mac_chars(body.skip(1))
            } else {
                crate::text::trim_last(crate::text::lossy(body.skip(1)), '\0')
            })
            &&& kind == 1 ==> n.chassis_id_subtype == crate::lldp::chassis_word(body[0])
            &&& kind != 1 ==> n.chassis_id == had.chassis_id && n.chassis_id_subtype
                == had.chassis_id_subtype
            &&& kind == 2 ==> n.port_id == (if body[0] == 3 && body.len() == 7 {
                crate::mac::mac_chars(body.skip(1))
            } else {
                crate::text::trim_last(crate::text::lossy(body.skip(1)), '\0')
            })
            &&& kind == 2 ==> n.port_id_subtype == crate::lldp::port_word(body[0])
            &&& kind != 2 ==> n.port_id == had.port_id && n.port_id_subtype == had.port_id_subtype
            &&& kind == 3 ==> n.ttl == body[0] * 256 + body[1]
            &&& kind != 3 ==> n.ttl == had.ttl
            &&& n.port_description == (if kind == 4 {
                crate::text::lossy(body)
            } else {
                had.port_description
            })
            &&& n.system_name == (if kind == 5 {
                crate::text::lossy(body)
            } else {
                had.system_name
            })
            &&& n.system_description == (if kind == 6 {
                crate::text::lossy(body)
            } else {
                had.system_description
            })
            &&& address ==> n.management_address == crate::ip::v4_text(
                crate::ip::Ipv4 {
                    bits: (body[2] * 0x100_0000 + body[3] * 0x1_0000 + body[4] * 0x100
                        + body[5]) as u32,
                },
            )
            &&& !address ==> n.management_address == had.management_address
        }),
{
    let all = list.push((kind, body));
    assert(all.drop_last() =~= list);
    assert(all.last() == (kind, body));
    if body.len() >= 1 {
        assert(body.skip(1).len() == body.len() - 1);
    }
}

/// Nothing said is nothing known.
pub proof fn lemma_nothing_said()
    ensures
        ({
            let n = crate::lldp::said(Seq::empty());
            &&& n.chassis_id.len() == 0
            &&& n.chassis_id_subtype.len() == 0
            &&& n.port_id.len() == 0
            &&& n.port_id_subtype.len() == 0
            &&& n.port_description.len() == 0
            &&& n.system_name.len() == 0
            &&& n.system_description.len() == 0
            &&& n.management_address.len() == 0
            &&& n.ttl == 0
        }),
{
}

/// The words for the subtypes of chassis and port identifiers.
pub proof fn lemma_subtype_words(subtype: u8)
    ensures
        subtype == 1 ==> crate::lldp::chassis_word(subtype) == "chassis-component"@
            && crate::lldp::port_word(subtype) == "interface-alias"@,
        subtype == 2 ==> crate::lldp::chassis_word(subtype) == "interface-alias"@
            && crate::lldp::port_word(subtype) == "port-component"@,
        subtype == 3 ==> crate::lldp::chassis_word(subtype) == "port-component"@
            && crate::lldp::port_word(subtype) == "mac"@,
        subtype == 4 ==> crate::lldp::chassis_word(subtype) == "mac"@ && crate::lldp::port_word(
            subtype,
        ) == "network-address"@,
        subtype == 5 ==> crate::lldp::chassis_word(subtype) == "network-address"@
            && crate::lldp::port_word(subtype) == "interface-name"@,
        subtype == 6 ==> crate::lldp::chassis_word(subtype) == "interface-name"@
            && crate::lldp::port_word(subtype) == "agent-circuit-id"@,
        subtype == 7 ==> crate::lldp::chassis_word(subtype) == "local"@ && crate::lldp::port_word(
            subtype,
        ) == "local"@,
        subtype == 0 || subtype > 7 ==> crate::lldp::chassis_word(subtype) == "unknown"@
            && crate::lldp::port_word(subtype) == "unknown"@,
{
}

/// A text that is not empty makes a TLV.
pub open spec fn worded(kind: u8, text: Seq<char>) -> Seq<u8> {
    if text.len() == 0 {
        Seq::empty()
    } else {
        tlv((kind, vstd::utf8::encode_utf8(text)))
    }
}

proof fn lemma_tlv_bytes(kind: u8, body: Seq<u8>)
    requires
        kind < 128,
        body.len() <= 511,
    ensures
        crate::lldp::tlv_bytes(kind, body) == tlv((kind, body)),
{
    assert(body.take(body.len() as int) =~= body);
    assert((kind * 512 + body.len()) / 256 == kind * 2 + body.len() / 256);
    assert((kind * 512 + body.len()) % 256 == body.len() % 256) by {
        assert(kind * 512 == 256 * (kind * 2));
    }
    assert(crate::lldp::tlv_bytes(kind, body) =~= tlv((kind, body)));
}

/// What this switch advertises: to the LLDP group address, from the port's own
/// address, the chassis by its address, the port by its name, the lifetime,
/// then what is known of the port's description, the system's name, its
/// description and its IPv4 management address, and the end mark.
pub proof fn lemma_advertisement_layout(
    system: System,
    port: Seq<char>,
    info: PortInfo,
    ttl: u16,
)
    requires
        crate::lldp::advertisable(system, port, info),
    ensures
        crate::lldp::advertisement(system, port, info, ttl) == seq![
            0x01u8,
            0x80u8,
            0xc2u8,
            0x00u8,
            0x00u8,
            0x0eu8,
        ] + info.mac@ + seq![0x88u8, 0xccu8] + tlv((1u8, seq![4u8] + system.chassis_mac@)) + tlv(
            (2u8, seq![5u8] + vstd::utf8::encode_utf8(port)),
        ) + tlv((3u8, seq![(ttl / 256) as u8, (ttl % 256) as u8])) + worded(4, info.description@)
            + worded(5, system.name@) + worded(6, system.description@) + (match crate::ip::v4_value(
            system.management_address@,
        ) {
            Some(a) => tlv(
                (
                    8u8,
                    seq![
                        5u8,
                        1u8,
                        (a.bits / 0x100_0000) as u8,
                        (a.bits / 0x1_0000 % 0x100) as u8,
                        (a.bits / 0x100 % 0x100) as u8,
                        (a.bits % 0x100) as u8,
                        1u8,
                        0u8,
                        0u8,
                        0u8,
                        0u8,
                        0u8,
                    ],
                ),
            ),
            None => Seq::empty(),
        }) + seq![0u8, 0u8],
{
    lemma_tlv_bytes(1, seq![4u8] + system.chassis_mac@);
    lemma_tlv_bytes(2, seq![5u8] + vstd::utf8::encode_utf8(port));
    lemma_tlv_bytes(3, crate::bytes::be16(ttl));
    if info.description@.len() > 0 {
        lemma_tlv_bytes(4, vstd::utf8::encode_utf8(info.description@));
    }
    if system.name@.len() > 0 {
        lemma_tlv_bytes(5, vstd::utf8::encode_utf8(system.name@));
    }
    if system.description@.len() > 0 {
        lemma_tlv_bytes(6, vstd::utf8::encode_utf8(system.description@));
    }
    if let Some(a) = crate::ip::v4_value(system.management_address@) {
        lemma_tlv_bytes(8, crate::lldp::management_body(a));
        assert(crate::lldp::management_body(a) =~= seq![
            5u8,
            1u8,
            (a.bits / 0x100_0000) as u8,
            (a.bits / 0x1_0000 % 0x100) as u8,
            (a.bits / 0x100 % 0x100) as u8,
            (a.bits % 0x100) as u8,
            1u8,
            0u8,
            0u8,
            0u8,
            0u8,
            0u8,
        ]);
    }
    lemma_tlv_bytes(0, Seq::empty());
    assert(tlv((0u8, Seq::<u8>::empty())) =~= seq![0u8, 0u8]);
    assert(crate::lldp::LLDP_DST@ =~= seq![0x01u8, 0x80u8, 0xc2u8, 0x00u8, 0x00u8, 0x0eu8]);
    assert(crate::bytes::be16(0x88cc) =~= seq![0x88u8, 0xccu8]);
    assert(crate::bytes::be16(ttl) =~= seq![(ttl / 256) as u8, (ttl % 256) as u8]);
}

/// A short frame is filled with zeros up to sixty bytes; a longer one is left
/// as it is.
pub proof fn lemma_frames_are_padded(f: Seq<u8>)
    ensures
        crate::dhcp::padded(f).len() == (if f.len() < 60 {
            60
        } else {
            f.len()
        }),
        crate::dhcp::padded(f).take(f.len() as int) == f,
        forall|i: int|
            f.len() <= i < crate::dhcp::padded(f).len() ==> #[trigger] crate::dhcp::padded(f)[i]
                == 0,
{
    assert(crate::dhcp::padded(f).take(f.len() as int) =~= f);
}

// ---------------------------------------------------------------- ports

/// May a port speak LLDP?
pub open spec fn speaks(config: Config, port: Seq<char>) -> bool {
    !config.disabled && !config.disabled_ports@.dom().contains(port)
}

/// The lifetime that is advertised: the interval in seconds times the hold
/// multiplier, at most what sixteen bits hold.
pub proof fn lemma_lifetimes(config: Config)
    ensures
        ({
            let secs = config.tx_interval as int / 1000 * (if config.hold_multiplier == 0 {
                1int
            } else {
                config.hold_multiplier as int
            });
            config.lifetime() == (if secs <= 0xffff {
                secs
            } else {
                0xffff
            })
        }),
        forall|p: Seq<char>| #[trigger] config.enables(p) == speaks(config, p),
{
}

/// A link that went down forgets its neighbors; one that changed is to
/// advertise at once; one that stayed as it was keeps everything.
pub proof fn lemma_links_change(p: PortModel, up: bool)
    ensures
        ({
            let r = crate::lldp::linked(p, up);
            &&& p.up == up ==> r == p
            &&& p.up != up ==> {
                &&& r.up == up
                &&& r.last_tx is None
                &&& up ==> r.neighbors == p.neighbors
                &&& !up ==> r.neighbors.dom() == Set::<(Seq<char>, Seq<char>)>::empty()
                &&& r.info == p.info
                &&& r.frames_tx == p.frames_tx
                &&& r.frames_rx == p.frames_rx
                &&& r.frames_discarded == p.frames_discarded
                &&& r.ageouts == p.ageouts
            }
        }),
{
    let r = crate::lldp::linked(p, up);
    if p.up != up && !up {
        assert(r.neighbors.dom() =~= Set::<(Seq<char>, Seq<char>)>::empty());
    }
}

/// Every frame is counted; one that says nothing is counted as discarded. What
/// a frame says of its sender replaces what was known of it, from now on, and
/// a lifetime of 0 forgets it. Other neighbors stay.
pub proof fn lemma_frames_are_learned(p: PortModel, frame: Seq<u8>, now: u64)
    requires
        p.frames_rx < u64::MAX,
        p.frames_discarded < u64::MAX,
    ensures
        ({
            let r = crate::lldp::received(p, frame, now);
            &&& r.frames_rx == p.frames_rx + 1
            &&& crate::lldp::decoded(frame) is None ==> r.frames_discarded == p.frames_discarded
                + 1 && r.neighbors == p.neighbors
            &&& crate::lldp::decoded(frame) matches Some(n) ==> {
                &&& r.frames_discarded == p.frames_discarded
                &&& n.ttl == 0 ==> r.neighbors == p.neighbors.remove((n.chassis_id, n.port_id))
                &&& n.ttl > 0 ==> r.neighbors == p.neighbors.insert(
                    (n.chassis_id, n.port_id),
                    (n, now),
                )
            }
            &&& r.info == p.info
            &&& r.up == p.up
            &&& r.frames_tx == p.frames_tx
            &&& r.ageouts == p.ageouts
            &&& r.last_tx == p.last_tx
        }),
{
}

/// A neighbor is kept as long as its lifetime has not run out, where the port
/// speaks; ageing out is counted.
pub proof fn lemma_neighbors_age(
    p: PortModel,
    enabled: bool,
    interval: u64,
    now: u64,
    gone: int,
    k: (Seq<char>, Seq<char>),
)
    requires
        0 <= p.ageouts + gone <= u64::MAX,
    ensures
        ({
            let r = crate::lldp::port_stepped(p, enabled, interval, now, gone);
            let stays = enabled && p.neighbors.dom().contains(k) && p.neighbors[k].0.ttl > 0 && now
                < p.neighbors[k].1 + p.neighbors[k].0.ttl * 1000;
            &&& stays <==> r.neighbors.dom().contains(k)
            &&& stays ==> r.neighbors[k] == p.neighbors[k]
            &&& enabled ==> r.ageouts == p.ageouts + gone
            &&& !enabled ==> r.ageouts == p.ageouts
        }),
{
}

/// How many neighbors age out.
pub proof fn lemma_aged_are_counted(s: Seq<((String, String), Learned)>, now: u64, n: int)
    requires
        0 < n <= s.len(),
    ensures
        crate::lldp::gone_count(s, now, 0) == 0,
        crate::lldp::gone_count(s, now, n) == crate::lldp::gone_count(s, now, n - 1) + (if s[n
            - 1].1.neighbor.ttl > 0 && now < s[n - 1].1.last_seen + s[n - 1].1.neighbor.ttl
            * 1000 {
            0int
        } else {
            1
        }),
{
}

/// A port advertises where it speaks, is up and its interval went by since it
/// last did; then that is counted and timed. A port that is down or silent is
/// to advertise at once when it comes back.
pub proof fn lemma_ports_advertise(
    p: PortModel,
    enabled: bool,
    interval: u64,
    now: u64,
    gone: int,
)
    requires
        p.frames_tx < u64::MAX,
    ensures
        ({
            let r = crate::lldp::port_stepped(p, enabled, interval, now, gone);
            let sends = crate::lldp::advertises(p, enabled, interval, now);
            &&& sends <==> enabled && p.up && (p.last_tx matches Some(at) ==> now >= at + interval
                || interval == 0)
            &&& sends ==> r.frames_tx == p.frames_tx + 1 && r.last_tx == Some(now)
            &&& !sends ==> r.frames_tx == p.frames_tx
            &&& !sends && enabled && p.up ==> r.last_tx == p.last_tx
            &&& !enabled || !p.up ==> r.last_tx is None
            &&& r.info == p.info
            &&& r.up == p.up
            &&& r.frames_rx == p.frames_rx
            &&& r.frames_discarded == p.frames_discarded
        }),
{
}

/// Each port that advertises sends one frame of its own, in the order of the
/// ports.
pub proof fn lemma_ports_send(
    ports: Seq<(String, PortState)>,
    system: System,
    config: Config,
    now: u64,
    n: int,
)
    requires
        0 < n <= ports.len(),
    ensures
        ({
            let front = crate::lldp::frames(ports, system, config, now, n - 1);
            let all = crate::lldp::frames(ports, system, config, now, n);
            let name = ports[n - 1].0@;
            let p = ports[n - 1].1;
            let due = speaks(config, name) && p.up && (p.last_tx matches Some(at) ==> now >= at
                + config.tx_interval || config.tx_interval == 0);
            &&& crate::lldp::frames(ports, system, config, now, 0).len() == 0
            &&& due ==> all == front.push(
                (
                    name,
                    crate::dhcp::padded(
                        crate::lldp::advertisement(
                            system,
                            name,
                            p.info,
                            config.lifetime() as u16,
                        ),
                    ),
                ),
            )
            &&& !due ==> all == front
        }),
{
}

/// The ports are those of the last push: what a port learned and counted stays
/// with it, its description is the new one, and a new port starts afresh.
pub proof fn lemma_ports_are_pushed(
    had: Map<Seq<char>, PortModel>,
    ports: Map<Seq<char>, PortInfo>,
    name: Seq<char>,
)
    ensures
        ({
            let r = crate::lldp::ports_after(had, ports);
            &&& r.dom().contains(name) <==> ports.dom().contains(name)
            &&& ports.dom().contains(name) ==> r[name].info == ports[name]
            &&& ports.dom().contains(name) && had.dom().contains(name) ==> {
                &&& r[name].up == had[name].up
                &&& r[name].frames_tx == had[name].frames_tx
                &&& r[name].frames_rx == had[name].frames_rx
                &&& r[name].frames_discarded == had[name].frames_discarded
                &&& r[name].ageouts == had[name].ageouts
                &&& r[name].last_tx == had[name].last_tx
                &&& r[name].neighbors == had[name].neighbors
            }
            &&& ports.dom().contains(name) && !had.dom().contains(name) ==> {
                &&& !r[name].up
                &&& r[name].frames_tx == 0
                &&& r[name].frames_rx == 0
                &&& r[name].frames_discarded == 0
                &&& r[name].ageouts == 0
                &&& r[name].last_tx is None
                &&& r[name].neighbors.dom() == Set::<(Seq<char>, Seq<char>)>::empty()
            }
        }),
{
    let r = crate::lldp::ports_after(had, ports);
    if ports.dom().contains(name) && !had.dom().contains(name) {
        assert(r[name].neighbors.dom() =~= Set::<(Seq<char>, Seq<char>)>::empty());
    }
}

/// Clearing sets a port's counters to 0 and nothing else; it is for the port
/// that was named, or for all where none was.
pub proof fn lemma_counters_clear(
    p: PortModel,
    ports: Seq<(String, PortState)>,
    scope: Seq<char>,
    n: int,
)
    requires
        0 < n <= ports.len(),
    ensures
        ({
            let r = crate::lldp::cleared(p);
            &&& r.frames_tx == 0
            &&& r.frames_rx == 0
            &&& r.frames_discarded == 0
            &&& r.ageouts == 0
            &&& r.info == p.info
            &&& r.up == p.up
            &&& r.last_tx == p.last_tx
            &&& r.neighbors == p.neighbors
        }),
        crate::lldp::in_scope(scope, ports[n - 1].0@) <==> scope == Seq::<char>::empty() || scope
            == ports[n - 1].0@,
        crate::lldp::scope_count(ports, scope, 0) == 0,
        crate::lldp::scope_count(ports, scope, n) == crate::lldp::scope_count(ports, scope, n - 1)
            + (if scope.len() == 0 || scope == ports[n - 1].0@ {
            1int
        } else {
            0
        }),
{
    if scope.len() == 0 {
        assert(scope =~= Seq::<char>::empty());
    }
}

/// A port's row shows its counters and each neighbor with its age in seconds.
pub proof fn lemma_ports_are_shown(
    r: PortSnapshot,
    e: (String, PortState),
    config: Config,
    now: u64,
    i: int,
)
    requires
        crate::lldp::shows_port(r, e, config, now),
    ensures
        r.port@ == e.0@,
        r.enabled == speaks(config, e.0@),
        r.frames_tx == e.1.frames_tx,
        r.frames_rx == e.1.frames_rx,
        r.frames_discarded == e.1.frames_discarded,
        r.ageouts == e.1.ageouts,
        r.neighbors@.len() == e.1.neighbors.entries@.len(),
        0 <= i < r.neighbors@.len() ==> {
            let l = e.1.neighbors.entries@[i].1;
            let n: NeighborModel = r.neighbors@[i].neighbor.deep_view();
            &&& n == l.neighbor.deep_view()
            &&& now <= l.last_seen ==> r.neighbors@[i].age_secs == 0
            &&& now > l.last_seen ==> r.neighbors@[i].age_secs == (now - l.last_seen) / 1000
        },
{
    if 0 <= i < r.neighbors@.len() {
        assert(r.neighbors@[i].neighbor.deep_view()
            == e.1.neighbors.entries@[i].1.neighbor.deep_view());
    }
}

} // verus!
