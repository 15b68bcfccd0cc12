//! The LLDP engine: 802.1AB advertisement transmission on every
//! enabled front-panel port, a TTL-aged neighbor table built from
//! received frames, and per-port frame counters.
//!
//! LLDP is on by default: `services { lldp { disable; } }` is the
//! global off switch and `interfaces { <port> { lldp disable; } }` the
//! per-port one, matching the IGMP-snooping convention. A port only
//! transmits while its link is up; a disabled port sheds the neighbors
//! it had learned.

use vstd::prelude::*;

use crate::bytes::{copy_bytes, push_all, push_be16, push_fill, read16};
use crate::clock::elapsed;
use crate::ip::{parse_v4, Ipv4};
use crate::mac::mac_text;
use crate::ordmap::{Key, OrdMap, TextSet};
use crate::text::{read_lossy, same_text, trim_end_char};

verus! {

/// The LLDP multicast destination (nearest-bridge group).
pub const LLDP_DST: [u8; 6] = [0x01, 0x80, 0xc2, 0x00, 0x00, 0x0e];

/// EtherType 0x88cc.
pub const LLDP_ETHERTYPE: u16 = 0x88cc;

/// The default advertisement interval, in seconds.
pub const DEFAULT_TX_INTERVAL: u32 = 30;

/// The default TTL multiplier (TTL = interval x multiplier).
pub const DEFAULT_HOLD_MULTIPLIER: u8 = 4;

/// Local identity advertised in every frame, refreshed from syncd's
/// interface view plus the OS hostname.
#[derive(Debug, Clone, PartialEq, Eq)]
pub struct System {
    /// The switch base MAC (chassis id, subtype 4).
    pub chassis_mac: [u8; 6],
    pub name: String,
    pub description: String,
    /// Management1's address, advertised in the management-address
    /// TLV; empty = the TLV is omitted.
    pub management_address: String,
}

impl Default for System {
    fn default() -> (r: System)
        ensures
            r.chassis_mac@ == Seq::new(6, |i: int| 0u8),
            r.name@.len() == 0,
            r.description@.len() == 0,
            r.management_address@.len() == 0,
    {
        let r = System {
            chassis_mac: [0, 0, 0, 0, 0, 0],
            name: String::new(),
            description: String::new(),
            management_address: String::new(),
        };
        assert(r.chassis_mac@ =~= Seq::new(6, |i: int| 0u8));
        r
    }
}

/// One local front-panel port LLDP may run on.
#[derive(Debug, Clone, PartialEq, Eq)]
pub struct PortInfo {
    pub mac: [u8; 6],
    /// The configured `description`, advertised as the port
    /// description TLV.
    pub description: String,
}

impl Default for PortInfo {
    fn default() -> (r: PortInfo)
        ensures
            r.mac@ == Seq::new(6, |i: int| 0u8),
            r.description@.len() == 0,
    {
        let r = PortInfo { mac: [0, 0, 0, 0, 0, 0], description: String::new() };
        assert(r.mac@ =~= Seq::new(6, |i: int| 0u8));
        r
    }
}

/// One neighbor as it was last heard.
#[derive(Debug, Clone, PartialEq, Eq)]
pub struct Neighbor {
    pub chassis_id: String,
    pub chassis_id_subtype: String,
    pub port_id: String,
    pub port_id_subtype: String,
    pub port_description: String,
    pub system_name: String,
    pub system_description: String,
    pub management_address: String,
    pub ttl: u16,
}

/// A neighbor as mathematical values.
#[verifier::ext_equal]
pub struct NeighborModel {
    pub chassis_id: Seq<char>,
    pub chassis_id_subtype: Seq<char>,
    pub port_id: Seq<char>,
    pub port_id_subtype: Seq<char>,
    pub port_description: Seq<char>,
    pub system_name: Seq<char>,
    pub system_description: Seq<char>,
    pub management_address: Seq<char>,
    pub ttl: u16,
}

impl DeepView for Neighbor {
    type V = NeighborModel;

    open spec fn deep_view(&self) -> NeighborModel {
        NeighborModel {
            chassis_id: self.chassis_id@,
            chassis_id_subtype: self.chassis_id_subtype@,
            port_id: self.port_id@,
            port_id_subtype: self.port_id_subtype@,
            port_description: self.port_description@,
            system_name: self.system_name@,
            system_description: self.system_description@,
            management_address: self.management_address@,
            ttl: self.ttl,
        }
    }
}

// --------------------------------------------------------------- encoding

/// How much of a payload a TLV carries: its length has nine bits.
pub open spec fn tlv_len(len: nat) -> int {
    if len <= 0xffff {
        len as int % 512
    } else {
        0
    }
}

/// One TLV: 7-bit type, 9-bit length, then the payload.
pub open spec fn tlv_bytes(kind: u8, payload: Seq<u8>) -> Seq<u8> {
    crate::bytes::be16((kind * 512 + tlv_len(payload.len())) as u16) + payload.take(tlv_len(payload.len()))
}

/// Append one TLV: 7-bit type, 9-bit length, then the payload.
fn tlv(out: &mut Vec<u8>, kind: u8, payload: &[u8])
    requires
        kind < 128,
    ensures
        final(out)@ == old(out)@ + tlv_bytes(kind, payload@),
{
    let ghost before = out@;
    let size: usize = payload.len();
    let len: usize = if size <= 0xffff {
        size % 512
    } else {
        0
    };
    push_be16(out, kind as u16 * 512 + len as u16);
    let part = copy_bytes(payload, 0, len);
    push_all(out, part.as_slice());
    assert(part@ =~= payload@.take(len as int));
    assert(out@ =~= before + tlv_bytes(kind, payload@));
}

/// A TLV that is left out where its text is empty.
pub open spec fn text_tlv(kind: u8, text: Seq<char>) -> Seq<u8> {
    if text.len() == 0 {
        Seq::empty()
    } else {
        tlv_bytes(kind, vstd::utf8::encode_utf8(text))
    }
}

fn push_text_tlv(out: &mut Vec<u8>, kind: u8, text: &str)
    requires
        kind < 128,
    ensures
        final(out)@ == old(out)@ + text_tlv(kind, text@),
{
    let ghost before = out@;
    if !text.is_empty() {
        tlv(out, kind, text.as_bytes());
    } else {
        assert(out@ =~= before + text_tlv(kind, text@));
    }
}

/// The body of a management-address TLV: address string length (subtype + 4
/// bytes), IPv4 subtype, the address, interface numbering subtype 1
/// (unknown), interface number, and an empty OID.
pub open spec fn management_body(address: Ipv4) -> Seq<u8> {
    seq![5u8, 1u8] + crate::bytes::be32(address.bits) + seq![1u8, 0u8, 0u8, 0u8, 0u8, 0u8]
}

/// The management-address TLV, left out where there is no IPv4 address.
pub open spec fn management_tlv(text: Seq<char>) -> Seq<u8> {
    match crate::ip::v4_value(text) {
        Some(address) => tlv_bytes(8, management_body(address)),
        None => Seq::empty(),
    }
}

/// An advertisement without padding: the three mandatory TLVs plus
/// the port/system description, system name and management address.
pub open spec fn advertisement(system: System, port: Seq<char>, info: PortInfo, ttl: u16) -> Seq<
    u8,
> {
    LLDP_DST@ + info.mac@ + crate::bytes::be16(LLDP_ETHERTYPE) + tlv_bytes(
        1,
        seq![4u8] + system.chassis_mac@,
    ) + tlv_bytes(2, seq![5u8] + vstd::utf8::encode_utf8(port)) + tlv_bytes(3, crate::bytes::be16(ttl))
        + text_tlv(4, info.description@) + text_tlv(5, system.name@) + text_tlv(
        6,
        system.description@,
    ) + management_tlv(system.management_address@) + tlv_bytes(0, Seq::empty())
}

fn push_management(out: &mut Vec<u8>, text: &str)
    ensures
        final(out)@ == old(out)@ + management_tlv(text@),
{
    let ghost before = out@;
    match parse_v4(text) {
        Some(address) => {
            let mut payload: Vec<u8> = Vec::new();
            payload.push(5);
            payload.push(1);
            address.push_to(&mut payload);
            payload.push(1);
            push_fill(&mut payload, 0, 5);
            assert(payload@ =~= management_body(address));
            tlv(out, 8, payload.as_slice());
        },
        None => {
            assert(out@ =~= before + management_tlv(text@));
        },
    }
}

/// Build one advertisement for `port`: the three mandatory TLVs plus
/// the port/system description, system name and management address.
pub fn encode(system: &System, port: &str, info: &PortInfo, ttl: u16) -> (frame: Vec<u8>)
    ensures
        frame@ == crate::dhcp::padded(advertisement(*system, port@, *info, ttl)),
{
    let mut frame: Vec<u8> = Vec::new();
    push_all(&mut frame, LLDP_DST.as_slice());
    push_all(&mut frame, info.mac.as_slice());
    push_be16(&mut frame, LLDP_ETHERTYPE);

    // Chassis ID, subtype 4 (MAC address).
    let mut chassis: Vec<u8> = Vec::new();
    chassis.push(4);
    push_all(&mut chassis, system.chassis_mac.as_slice());
    assert(chassis@ =~= seq![4u8] + system.chassis_mac@);
    tlv(&mut frame, 1, chassis.as_slice());

    // Port ID, subtype 5 (interface name).
    let mut port_id: Vec<u8> = Vec::new();
    port_id.push(5);
    push_all(&mut port_id, port.as_bytes());
    assert(port_id@ =~= seq![5u8] + vstd::utf8::encode_utf8(port@));
    tlv(&mut frame, 2, port_id.as_slice());

    let mut life: Vec<u8> = Vec::new();
    push_be16(&mut life, ttl);
    assert(life@ =~= crate::bytes::be16(ttl));
    tlv(&mut frame, 3, life.as_slice());

    push_text_tlv(&mut frame, 4, info.description.as_str());
    push_text_tlv(&mut frame, 5, system.name.as_str());
    push_text_tlv(&mut frame, 6, system.description.as_str());
    push_management(&mut frame, system.management_address.as_str());
    let nothing: Vec<u8> = Vec::new();
    assert(nothing@ =~= Seq::<u8>::empty());
    tlv(&mut frame, 0, nothing.as_slice());
    assert(LLDP_DST@.len() == 6);
    let ghost whole = advertisement(*system, port@, *info, ttl);
    assert(frame@ == whole);
    // Pad to the 60-byte minimum the wire wants (the FCS follows).
    if frame.len() < 60 {
        let missing: usize = 60 - frame.len();
        push_fill(&mut frame, 0, missing);
        assert(frame@ =~= crate::dhcp::padded(whole));
    }
    frame
}

// --------------------------------------------------------------- decoding

/// The TLVs from index `at` on, up to the end mark or the end of the
/// frame; none at all where one is cut short.
pub open spec fn tlvs(b: Seq<u8>, at: int) -> Option<Seq<(u8, Seq<u8>)>>
    decreases b.len() - at,
{
    if at < 0 || b.len() < at + 2 {
        Some(Seq::empty())
    } else {
        let kind = (crate::bytes::word16(b, at) / 512) as u8;
        let len = crate::bytes::word16(b, at) as int % 512;
        if b.len() < at + 2 + len {
            None
        } else if kind == 0 {
            Some(Seq::empty())
        } else {
            match tlvs(b, at + 2 + len) {
                Some(rest) => Some(seq![(kind, b.subrange(at + 2, at + 2 + len))] + rest),
                None => None,
            }
        }
    }
}

/// A mandatory TLV that is too short to be one.
pub open spec fn malformed(t: (u8, Seq<u8>)) -> bool {
    ((t.0 == 1 || t.0 == 2) && t.1.len() < 1) || (t.0 == 3 && t.1.len() < 2)
}

pub open spec fn any_malformed(list: Seq<(u8, Seq<u8>)>) -> bool {
    exists|i: int| 0 <= i < list.len() && malformed(#[trigger] list[i])
}

/// The body of the last TLV of a type.
pub open spec fn last_tlv(list: Seq<(u8, Seq<u8>)>, kind: u8) -> Option<Seq<u8>>
    decreases list.len(),
{
    if list.len() == 0 {
        None
    } else if list.last().0 == kind {
        Some(list.last().1)
    } else {
        last_tlv(list.drop_last(), kind)
    }
}

/// The body of the last management-address TLV that holds an IPv4 address.
pub open spec fn last_address(list: Seq<(u8, Seq<u8>)>) -> Option<Seq<u8>>
    decreases list.len(),
{
    if list.len() == 0 {
        None
    } else if list.last().0 == 8 && list.last().1.len() >= 6 && list.last().1[0] == 5
        && list.last().1[1] == 1 {
        Some(list.last().1)
    } else {
        last_address(list.drop_last())
    }
}

pub open spec fn chassis_word(subtype: u8) -> Seq<char> {
    match subtype {
        1 => "chassis-component"@,
        2 => "interface-alias"@,
        3 => "port-component"@,
        4 => "mac"@,
        5 => "network-address"@,
        6 => "interface-name"@,
        7 => "local"@,
        _ => "unknown"@,
    }
}

pub open spec fn port_word(subtype: u8) -> Seq<char> {
    match subtype {
        1 => "interface-alias"@,
        2 => "port-component"@,
        3 => "mac"@,
        4 => "network-address"@,
        5 => "interface-name"@,
        6 => "agent-circuit-id"@,
        7 => "local"@,
        _ => "unknown"@,
    }
}

/// An identifier TLV body: a MAC subtype renders as a MAC, everything
/// else as (lossy) text.
pub open spec fn id_text(body: Seq<u8>, mac_subtype: u8) -> Seq<char> {
    let id = body.skip(1);
    if body[0] == mac_subtype && id.len() == 6 {
        crate::mac::mac_chars(id)
    } else {
        crate::text::trim_last(crate::text::lossy(id), '\0')
    }
}

/// The text of the last TLV of a type, empty where there is none.
pub open spec fn tlv_text(list: Seq<(u8, Seq<u8>)>, kind: u8) -> Seq<char> {
    match last_tlv(list, kind) {
        Some(body) => crate::text::lossy(body),
        None => Seq::empty(),
    }
}

/// What a list of TLVs says of a neighbor.
pub open spec fn said(list: Seq<(u8, Seq<u8>)>) -> NeighborModel {
    NeighborModel {
        chassis_id: match last_tlv(list, 1) {
            Some(body) => id_text(body, 4),
            None => Seq::empty(),
        },
        chassis_id_subtype: match last_tlv(list, 1) {
            Some(body) => chassis_word(body[0]),
            None => Seq::empty(),
        },
        port_id: match last_tlv(list, 2) {
            Some(body) => id_text(body, 3),
            None => Seq::empty(),
        },
        port_id_subtype: match last_tlv(list, 2) {
            Some(body) => port_word(body[0]),
            None => Seq::empty(),
        },
        port_description: tlv_text(list, 4),
        system_name: tlv_text(list, 5),
        system_description: tlv_text(list, 6),
        management_address: match last_address(list) {
            Some(body) => crate::ip::v4_text(Ipv4 { bits: crate::bytes::word32(body, 2) }),
            None => Seq::empty(),
        },
        ttl: match last_tlv(list, 3) {
            Some(body) => crate::bytes::word16(body, 0),
            None => 0,
        },
    }
}

/// The neighbor that a frame announces. The three mandatory TLVs decide
/// whether it was an LLDPDU at all.
pub open spec fn decoded(frame: Seq<u8>) -> Option<NeighborModel> {
    if frame.len() < 14 || crate::bytes::word16(frame, 12) != LLDP_ETHERTYPE {
        None
    } else {
        match tlvs(frame, 14) {
            Some(list) => if any_malformed(list) || said(list).chassis_id.len() == 0 || said(
                list,
            ).port_id.len() == 0 || last_tlv(list, 3) is None {
                None
            } else {
                Some(said(list))
            },
            None => None,
        }
    }
}

fn chassis_subtype(subtype: u8) -> (r: &'static str)
    ensures
        r@ == chassis_word(subtype),
{
    match subtype {
        1 => "chassis-component",
        2 => "interface-alias",
        3 => "port-component",
        4 => "mac",
        5 => "network-address",
        6 => "interface-name",
        7 => "local",
        _ => "unknown",
    }
}

fn port_subtype(subtype: u8) -> (r: &'static str)
    ensures
        r@ == port_word(subtype),
{
    match subtype {
        1 => "interface-alias",
        2 => "port-component",
        3 => "mac",
        4 => "network-address",
        5 => "interface-name",
        6 => "agent-circuit-id",
        7 => "local",
        _ => "unknown",
    }
}

fn identifier(body: &Vec<u8>, mac_subtype: u8) -> (r: String)
    requires
        body@.len() >= 1,
    ensures
        r@ == id_text(body@, mac_subtype),
{
    let id = copy_bytes(body.as_slice(), 1, body.len());
    assert(id@ =~= body@.skip(1));
    if body[0] == mac_subtype && id.len() == 6 {
        mac_text(id.as_slice())
    } else {
        let text = read_lossy(id.as_slice());
        trim_end_char(text.as_str(), '\0')
    }
}

/// Take one TLV into the neighbor; false where it is malformed.
fn take_tlv(n: &mut Neighbor, kind: u8, body: &Vec<u8>, list: Ghost<Seq<(u8, Seq<u8>)>>) -> (ok:
    bool)
    requires
        old(n).deep_view() == said(list@),
    ensures
        ok == !malformed((kind, body@)),
        ok ==> final(n).deep_view() == said(list@.push((kind, body@))),
{
    let ghost next = list@.push((kind, body@));
    proof {
        assert(next.drop_last() =~= list@);
        assert(next.last() == (kind, body@));
    }
    match kind {
        1 => {
            if body.len() < 1 {
                return false;
            }
            n.chassis_id_subtype = chassis_subtype(body[0]).to_owned();
            n.chassis_id = identifier(body, 4);
        },
        2 => {
            if body.len() < 1 {
                return false;
            }
            n.port_id_subtype = port_subtype(body[0]).to_owned();
            n.port_id = identifier(body, 3);
        },
        3 => {
            if body.len() < 2 {
                return false;
            }
            n.ttl = read16(body.as_slice(), 0);
        },
        4 => {
            n.port_description = read_lossy(body.as_slice());
        },
        5 => {
            n.system_name = read_lossy(body.as_slice());
        },
        6 => {
            n.system_description = read_lossy(body.as_slice());
        },
        8 => {
            // address string length, subtype, then the address.
            if body.len() >= 6 && body[0] == 5 && body[1] == 1 {
                let address = Ipv4 { bits: crate::bytes::read32(body.as_slice(), 2) };
                n.management_address = address.shown();
            }
        },
        _ => {},
    }
    true
}

/// What the TLVs read so far and those still to come make.
pub open spec fn joined(
    done: Seq<(u8, Seq<u8>)>,
    rest: Option<Seq<(u8, Seq<u8>)>>,
) -> Option<Seq<(u8, Seq<u8>)>> {
    match rest {
        Some(rest) => Some(done + rest),
        None => None,
    }
}

/// Parse a received frame into a neighbor. None = not a well-formed
/// LLDPDU (the caller counts it as discarded).
pub fn decode(frame: &[u8]) -> (r: Option<Neighbor>)
    ensures
        match r {
            Some(n) => decoded(frame@) == Some(n.deep_view()),
            None => decoded(frame@) is None,
        },
{
    let len: usize = frame.len();
    if len < 14 || read16(frame, 12) != LLDP_ETHERTYPE {
        return None;
    }
    let mut n = Neighbor {
        chassis_id: String::new(),
        chassis_id_subtype: String::new(),
        port_id: String::new(),
        port_id_subtype: String::new(),
        port_description: String::new(),
        system_name: String::new(),
        system_description: String::new(),
        management_address: String::new(),
        ttl: 0,
    };
    let ghost all = tlvs(frame@, 14);
    let ghost mut done: Seq<(u8, Seq<u8>)> = Seq::empty();
    let mut seen_ttl = false;
    let mut at: usize = 14;
    let mut open = true;
    proof {
        assert(n.deep_view() =~= said(done));
        if let Some(rest) = all {
            assert(done + rest =~= rest);
        }
    }
    while open && len - at >= 2
        invariant
            at <= len,
            len == frame@.len(),
            len >= 14,
            crate::bytes::word16(frame@, 12) == LLDP_ETHERTYPE,
            all == tlvs(frame@, 14),
            open ==> all == joined(done, tlvs(frame@, at as int)),
            !open ==> all == Some(done),
            n.deep_view() == said(done),
            !any_malformed(done),
            seen_ttl == (last_tlv(done, 3) is Some),
        decreases len - at + (if open { 1int } else { 0int }),
    {
        let header: u16 = read16(frame, at);
        let kind: u8 = (header / 512) as u8;
        let size: usize = (header % 512) as usize;
        if len - at - 2 < size {
            assert(tlvs(frame@, at as int) is None);
            return None;
        }
        if kind == 0 {
            assert(done + Seq::<(u8, Seq<u8>)>::empty() =~= done);
            open = false;
        } else {
            let body = copy_bytes(frame, at + 2, at + 2 + size);
            let ghost item = (kind, body@);
            let ghost rest = tlvs(frame@, at + 2 + size);
            proof {
                assert(done.push(item).drop_last() =~= done);
                if rest is Some {
                    assert(done + (seq![item] + rest->0) =~= done.push(item) + rest->0);
                }
                assert(all == joined(done.push(item), rest));
            }
            if !take_tlv(&mut n, kind, &body, Ghost(done)) {
                proof {
                    if rest is Some {
                        let list = done.push(item) + rest->0;
                        assert(list[done.len() as int] == item);
                        assert(any_malformed(list));
                    }
                }
                return None;
            }
            if kind == 3 {
                seen_ttl = true;
            }
            proof {
                let next = done.push(item);
                assert(!any_malformed(next)) by {
                    assert forall|i: int| 0 <= i < next.len() implies !malformed(
                        #[trigger] next[i],
                    ) by {
                        if i < done.len() {
                            assert(next[i] == done[i]);
                        }
                    }
                }
                done = next;
            }
            at = at + 2 + size;
        }
    }
    proof {
        if open {
            assert(tlvs(frame@, at as int) == Some(Seq::<(u8, Seq<u8>)>::empty()));
            assert(done + Seq::<(u8, Seq<u8>)>::empty() =~= done);
        }
        assert(all == Some(done));
    }
    if n.chassis_id.as_str().is_empty() || n.port_id.as_str().is_empty() || !seen_ttl {
        return None;
    }
    Some(n)
}

// -------------------------------------------------------------- round trip

/// A list with one more TLV, unless its text is empty.
pub open spec fn grown(list: Seq<(u8, Seq<u8>)>, kind: u8, text: Seq<char>) -> Seq<(u8, Seq<u8>)> {
    if text.len() == 0 {
        list
    } else {
        list.push((kind, vstd::utf8::encode_utf8(text)))
    }
}

proof fn lemma_last_push(list: Seq<(u8, Seq<u8>)>, kind: u8, body: Seq<u8>)
    ensures
        forall|k: u8|
            #![trigger last_tlv(list.push((kind, body)), k)]
            last_tlv(list.push((kind, body)), k) == if k == kind {
                Some(body)
            } else {
                last_tlv(list, k)
            },
        kind != 8 ==> last_address(list.push((kind, body))) == last_address(list),
{
    assert(list.push((kind, body)).drop_last() =~= list);
}

proof fn lemma_last_grown(list: Seq<(u8, Seq<u8>)>, kind: u8, text: Seq<char>)
    requires
        last_tlv(list, kind) is None,
        kind != 8,
    ensures
        forall|k: u8|
            #![trigger last_tlv(grown(list, kind, text), k)]
            k != kind ==> last_tlv(grown(list, kind, text), k) == last_tlv(list, k),
        tlv_text(grown(list, kind, text), kind) == text,
        last_address(grown(list, kind, text)) == last_address(list),
{
    lemma_last_push(list, kind, vstd::utf8::encode_utf8(text));
    vstd::utf8::encode_utf8_valid_utf8(text);
    vstd::utf8::encode_utf8_decode_utf8(text);
    if text.len() == 0 {
        assert(text =~= Seq::<char>::empty());
    }
}

/// Reading goes on behind a TLV that stands in a frame.
proof fn lemma_read_on(
    before: Seq<u8>,
    after: Seq<u8>,
    done: Seq<(u8, Seq<u8>)>,
    all: Option<Seq<(u8, Seq<u8>)>>,
    kind: u8,
    payload: Seq<u8>,
)
    requires
        0 < kind < 128,
        payload.len() <= 511,
        all == joined(
            done,
            tlvs(before + tlv_bytes(kind, payload) + after, before.len() as int),
        ),
    ensures
        all == joined(
            done.push((kind, payload)),
            tlvs(
                (before + tlv_bytes(kind, payload)) + after,
                (before + tlv_bytes(kind, payload)).len() as int,
            ),
        ),
{
    let t = tlv_bytes(kind, payload);
    let f = before + t + after;
    let at = before.len() as int;
    let head = (kind * 512 + payload.len()) as u16;
    assert(payload.take(payload.len() as int) =~= payload);
    assert(t == crate::bytes::be16(head) + payload);
    assert(f.subrange(at, at + 2) =~= crate::bytes::be16(head));
    crate::bytes::lemma_word16(f, at, head);
    assert(head / 512 == kind && head % 512 == payload.len());
    assert(f.subrange(at + 2, at + 2 + payload.len()) =~= payload);
    let rest = tlvs(f, at + 2 + payload.len());
    assert((before + t).len() == at + 2 + payload.len());
    if rest is Some {
        assert(done + (seq![(kind, payload)] + rest->0) =~= done.push((kind, payload))
            + rest->0);
    }
}

/// Reading goes on behind a text TLV, whether it is there or not.
proof fn lemma_read_text(
    before: Seq<u8>,
    after: Seq<u8>,
    done: Seq<(u8, Seq<u8>)>,
    all: Option<Seq<(u8, Seq<u8>)>>,
    kind: u8,
    text: Seq<char>,
)
    requires
        0 < kind < 128,
        vstd::utf8::encode_utf8(text).len() <= 511,
        all == joined(done, tlvs(before + text_tlv(kind, text) + after, before.len() as int)),
    ensures
        all == joined(
            grown(done, kind, text),
            tlvs(
                (before + text_tlv(kind, text)) + after,
                (before + text_tlv(kind, text)).len() as int,
            ),
        ),
{
    if text.len() == 0 {
        assert(before + text_tlv(kind, text) =~= before);
    } else {
        lemma_read_on(before, after, done, all, kind, vstd::utf8::encode_utf8(text));
    }
}

/// The texts of an advertisement fit their TLVs, and the port has a name
/// that reads back (a trailing NUL would be taken for padding).
pub open spec fn advertisable(system: System, port: Seq<char>, info: PortInfo) -> bool {
    &&& 0 < port.len()
    &&& port.last() != '\0'
    &&& vstd::utf8::encode_utf8(port).len() < 511
    &&& vstd::utf8::encode_utf8(info.description@).len() <= 511
    &&& vstd::utf8::encode_utf8(system.name@).len() <= 511
    &&& vstd::utf8::encode_utf8(system.description@).len() <= 511
}

/// What an advertisement announces.
pub open spec fn announced(system: System, port: Seq<char>, info: PortInfo, ttl: u16) -> NeighborModel {
    NeighborModel {
        chassis_id: crate::mac::mac_chars(system.chassis_mac@),
        chassis_id_subtype: "mac"@,
        port_id: port,
        port_id_subtype: "interface-name"@,
        port_description: info.description@,
        system_name: system.name@,
        system_description: system.description@,
        management_address: match crate::ip::v4_value(system.management_address@) {
            Some(address) => crate::ip::v4_text(address),
            None => Seq::empty(),
        },
        ttl,
    }
}

/// The TLVs of an advertisement, up to the management address.
pub open spec fn advertised(system: System, port: Seq<char>, info: PortInfo, ttl: u16) -> Seq<
    (u8, Seq<u8>),
> {
    let mandatory = Seq::<(u8, Seq<u8>)>::empty().push((1u8, seq![4u8] + system.chassis_mac@)).push(
        (2u8, seq![5u8] + vstd::utf8::encode_utf8(port)),
    ).push((3u8, crate::bytes::be16(ttl)));
    grown(
        grown(grown(mandatory, 4, info.description@), 5, system.name@),
        6,
        system.description@,
    )
}

/// The TLVs of an advertisement.
pub open spec fn all_advertised(system: System, port: Seq<char>, info: PortInfo, ttl: u16) -> Seq<
    (u8, Seq<u8>),
> {
    let most = advertised(system, port, info, ttl);
    match crate::ip::v4_value(system.management_address@) {
        Some(address) => most.push((8u8, management_body(address))),
        None => most,
    }
}

proof fn lemma_said_advertised(system: System, port: Seq<char>, info: PortInfo, ttl: u16)
    requires
        advertisable(system, port, info),
    ensures
        said(all_advertised(system, port, info, ttl)) == announced(system, port, info, ttl),
        last_tlv(all_advertised(system, port, info, ttl), 3) is Some,
        !any_malformed(all_advertised(system, port, info, ttl)),
{
    let mac = system.chassis_mac@;
    let c = seq![4u8] + mac;
    let p = seq![5u8] + vstd::utf8::encode_utf8(port);
    let t = crate::bytes::be16(ttl);
    let s0 = Seq::<(u8, Seq<u8>)>::empty();
    let s1 = s0.push((1u8, c));
    let s2 = s1.push((2u8, p));
    let s3 = s2.push((3u8, t));
    let s4 = grown(s3, 4, info.description@);
    let s5 = grown(s4, 5, system.name@);
    let s6 = grown(s5, 6, system.description@);
    lemma_last_push(s0, 1, c);
    lemma_last_push(s1, 2, p);
    lemma_last_push(s2, 3, t);
    lemma_last_grown(s3, 4, info.description@);
    lemma_last_grown(s4, 5, system.name@);
    lemma_last_grown(s5, 6, system.description@);
    assert(last_address(s0) is None);
    assert(last_address(s6) is None);
    assert(c.skip(1) =~= mac);
    assert(p.skip(1) =~= vstd::utf8::encode_utf8(port));
    vstd::utf8::encode_utf8_valid_utf8(port);
    vstd::utf8::encode_utf8_decode_utf8(port);
    assert(crate::text::lossy(p.skip(1)) == port);
    assert(crate::text::trim_last(port, '\0') == port);
    assert(t.subrange(0, 2) =~= t);
    crate::bytes::lemma_word16(t, 0, ttl);
    match crate::ip::v4_value(system.management_address@) {
        Some(address) => {
            let b = management_body(address);
            lemma_last_push(s6, 8, b);
            assert(s6.push((8u8, b)).drop_last() =~= s6);
            assert(b.subrange(2, 6) =~= crate::bytes::be32(address.bits));
            crate::bytes::lemma_word32(b, 2, address.bits);
        },
        None => {},
    }
    let all = all_advertised(system, port, info, ttl);
    assert(tlv_text(all, 4) == info.description@) by {
        assert(last_tlv(s6, 4) == last_tlv(s4, 4));
    }
    assert(tlv_text(all, 5) == system.name@) by {
        assert(last_tlv(s6, 5) == last_tlv(s5, 5));
    }
    assert(said(all) =~= announced(system, port, info, ttl));
    assert forall|i: int| 0 <= i < all.len() implies !malformed(#[trigger] all[i]) by {
        if i == 0 {
            assert(all[0] == (1u8, c));
        } else if i == 1 {
            assert(all[1] == (2u8, p));
        } else if i == 2 {
            assert(all[2] == (3u8, t));
        } else {
            assert(all[i].0 > 3);
        }
    }
}

proof fn lemma_assoc(a: Seq<u8>, b: Seq<u8>, c: Seq<u8>)
    ensures
        a + b + c == a + (b + c),
{
    assert(a + b + c =~= a + (b + c));
}

proof fn lemma_ethertype(mac: Seq<u8>, rest: Seq<u8>)
    requires
        mac.len() == 6,
    ensures
        ({
            let h = LLDP_DST@ + mac + crate::bytes::be16(LLDP_ETHERTYPE);
            h.len() == 14 && crate::bytes::word16(h + rest, 12) == LLDP_ETHERTYPE
        }),
{
    let h = LLDP_DST@ + mac + crate::bytes::be16(LLDP_ETHERTYPE);
    assert(LLDP_DST@.len() == 6);
    assert((h + rest).subrange(12, 14) =~= crate::bytes::be16(LLDP_ETHERTYPE));
    crate::bytes::lemma_word16(h + rest, 12, LLDP_ETHERTYPE);
}

proof fn lemma_end_mark(before: Seq<u8>, pad: Seq<u8>)
    ensures
        tlvs(before + (tlv_bytes(0, Seq::empty()) + pad), before.len() as int) == Some(
            Seq::<(u8, Seq<u8>)>::empty(),
        ),
{
    let t = tlv_bytes(0, Seq::empty());
    let f = before + (t + pad);
    let at = before.len() as int;
    assert(t =~= crate::bytes::be16(0));
    assert(f.subrange(at, at + 2) =~= crate::bytes::be16(0));
    crate::bytes::lemma_word16(f, at, 0);
}

/// Reading passes the mandatory TLVs.
proof fn lemma_read_mandatory(h: Seq<u8>, c: Seq<u8>, p: Seq<u8>, t: Seq<u8>, rest: Seq<u8>)
    requires
        c.len() <= 511,
        p.len() <= 511,
        t.len() <= 511,
    ensures
        ({
            let a = h + tlv_bytes(1, c) + tlv_bytes(2, p) + tlv_bytes(3, t);
            let s = Seq::<(u8, Seq<u8>)>::empty().push((1u8, c)).push((2u8, p)).push((3u8, t));
            tlvs(a + rest, h.len() as int) == joined(s, tlvs(a + rest, a.len() as int))
        }),
{
    let t1 = tlv_bytes(1, c);
    let t2 = tlv_bytes(2, p);
    let t3 = tlv_bytes(3, t);
    let r2 = t3 + rest;
    let r1 = t2 + r2;
    let a1 = h + t1;
    let a2 = a1 + t2;
    let f = a2 + t3 + rest;
    lemma_assoc(a2, t3, rest);
    lemma_assoc(a1, t2, r2);
    assert(f == a1 + t2 + r2);
    assert(f == a1 + r1);
    let all = tlvs(f, h.len() as int);
    let s0 = Seq::<(u8, Seq<u8>)>::empty();
    if all is Some {
        assert(s0 + all->0 =~= all->0);
    }
    lemma_read_on(h, r1, s0, all, 1, c);
    lemma_read_on(a1, r2, s0.push((1u8, c)), all, 2, p);
    lemma_read_on(a2, rest, s0.push((1u8, c)).push((2u8, p)), all, 3, t);
}

/// Reading passes the text TLVs.
proof fn lemma_read_texts(
    a: Seq<u8>,
    all: Option<Seq<(u8, Seq<u8>)>>,
    done: Seq<(u8, Seq<u8>)>,
    description: Seq<char>,
    name: Seq<char>,
    system: Seq<char>,
    rest: Seq<u8>,
)
    requires
        vstd::utf8::encode_utf8(description).len() <= 511,
        vstd::utf8::encode_utf8(name).len() <= 511,
        vstd::utf8::encode_utf8(system).len() <= 511,
        ({
            let b = a + text_tlv(4, description) + text_tlv(5, name) + text_tlv(6, system);
            all == joined(done, tlvs(b + rest, a.len() as int))
        }),
    ensures
        ({
            let b = a + text_tlv(4, description) + text_tlv(5, name) + text_tlv(6, system);
            let s = grown(grown(grown(done, 4, description), 5, name), 6, system);
            all == joined(s, tlvs(b + rest, b.len() as int))
        }),
{
    let t4 = text_tlv(4, description);
    let t5 = text_tlv(5, name);
    let t6 = text_tlv(6, system);
    let a4 = a + t4;
    let a5 = a4 + t5;
    let r5 = t6 + rest;
    let r4 = t5 + r5;
    let f = a5 + t6 + rest;
    lemma_assoc(a5, t6, rest);
    lemma_assoc(a4, t5, r5);
    assert(f == a4 + t5 + r5);
    assert(f == a4 + r4);
    lemma_read_text(a, r4, done, all, 4, description);
    let s4 = grown(done, 4, description);
    lemma_read_text(a4, r5, s4, all, 5, name);
    let s5 = grown(s4, 5, name);
    lemma_read_text(a5, rest, s5, all, 6, system);
}

/// The front of an advertisement, up to the mandatory TLVs.
pub open spec fn adv_front(system: System, port: Seq<char>, info: PortInfo, ttl: u16) -> Seq<u8> {
    LLDP_DST@ + info.mac@ + crate::bytes::be16(LLDP_ETHERTYPE) + tlv_bytes(
        1,
        seq![4u8] + system.chassis_mac@,
    ) + tlv_bytes(2, seq![5u8] + vstd::utf8::encode_utf8(port)) + tlv_bytes(
        3,
        crate::bytes::be16(ttl),
    )
}

/// The TLVs of an advertisement read back, whatever follows the end mark.
proof fn lemma_tlvs_read_back(
    system: System,
    port: Seq<char>,
    info: PortInfo,
    ttl: u16,
    pad: Seq<u8>,
)
    requires
        advertisable(system, port, info),
    ensures
        tlvs(advertisement(system, port, info, ttl) + pad, 14) == Some(
            all_advertised(system, port, info, ttl),
        ),
{
    let h = LLDP_DST@ + info.mac@ + crate::bytes::be16(LLDP_ETHERTYPE);
    let c = seq![4u8] + system.chassis_mac@;
    let p = seq![5u8] + vstd::utf8::encode_utf8(port);
    let t = crate::bytes::be16(ttl);
    let front = adv_front(system, port, info, ttl);
    let t4 = text_tlv(4, info.description@);
    let t5 = text_tlv(5, system.name@);
    let t6 = text_tlv(6, system.description@);
    let t8 = management_tlv(system.management_address@);
    let t0 = tlv_bytes(0, Seq::empty());
    let b = front + t4 + t5 + t6;
    let tail = t8 + (t0 + pad);
    let f = advertisement(system, port, info, ttl) + pad;
    assert(f == b + t8 + t0 + pad);
    lemma_assoc(b + t8, t0, pad);
    lemma_assoc(b, t8, t0 + pad);
    assert(f == b + tail);
    lemma_assoc(front + t4 + t5, t6, tail);
    lemma_assoc(front + t4, t5, t6 + tail);
    lemma_assoc(front, t4, t5 + (t6 + tail));
    lemma_ethertype(info.mac@, Seq::empty());
    lemma_read_mandatory(h, c, p, t, t4 + (t5 + (t6 + tail)));
    let s = Seq::<(u8, Seq<u8>)>::empty().push((1u8, c)).push((2u8, p)).push((3u8, t));
    let all = tlvs(f, 14);
    lemma_read_texts(
        front,
        all,
        s,
        info.description@,
        system.name@,
        system.description@,
        tail,
    );
    let most = advertised(system, port, info, ttl);
    assert(all == joined(most, tlvs(f, b.len() as int)));
    let done = all_advertised(system, port, info, ttl);
    match crate::ip::v4_value(system.management_address@) {
        Some(address) => {
            lemma_read_on(b, t0 + pad, most, all, 8, management_body(address));
        },
        None => {
            assert(b + t8 =~= b);
        },
    }
    lemma_end_mark(b + t8, pad);
    assert(done + Seq::<(u8, Seq<u8>)>::empty() =~= done);
}

/// What the switch advertises its neighbors read: every advertisement
/// decodes as the identity, the port and the lifetime it was made of, with
/// or without the optional TLVs.
pub proof fn lemma_advertisement_round_trips(
    system: System,
    port: Seq<char>,
    info: PortInfo,
    ttl: u16,
)
    requires
        advertisable(system, port, info),
    ensures
        decoded(crate::dhcp::padded(advertisement(system, port, info, ttl))) == Some(
            announced(system, port, info, ttl),
        ),
{
    let adv = advertisement(system, port, info, ttl);
    let f = crate::dhcp::padded(adv);
    let pad = f.skip(adv.len() as int);
    assert(f =~= adv + pad);
    lemma_tlvs_read_back(system, port, info, ttl, pad);
    lemma_said_advertised(system, port, info, ttl);
    let h = LLDP_DST@ + info.mac@ + crate::bytes::be16(LLDP_ETHERTYPE);
    lemma_ethertype(info.mac@, f.skip(14));
    assert(adv.len() >= 14 && adv.take(14) =~= h) by {
        assert(h.len() == 14);
    }
    assert(f =~= h + f.skip(14)) by {
        assert(f.take(14) =~= adv.take(14));
    }
    assert(said(all_advertised(system, port, info, ttl)).chassis_id.len() == 17);
}

// ----------------------------------------------------------------- engine

pub struct Config {
    /// The global off switch (LLDP runs by default).
    pub disabled: bool,
    /// In milliseconds.
    pub tx_interval: u64,
    pub hold_multiplier: u8,
    /// Ports carrying `lldp disable`.
    pub disabled_ports: TextSet,
}

impl Config {
    /// The set is in order and the lifetime can be counted.
    pub open spec fn wf(&self) -> bool {
        self.disabled_ports.wf() && self.tx_interval / 1000 * 255 <= u64::MAX
    }

    /// Does LLDP run on a port?
    pub open spec fn enables(&self, port: Seq<char>) -> bool {
        !self.disabled && !self.disabled_ports@.dom().contains(port)
    }

    /// The advertised TTL, clamped to what the TLV can carry.
    pub open spec fn lifetime(&self) -> int {
        let hold: int = if self.hold_multiplier == 0 {
            1
        } else {
            self.hold_multiplier as int
        };
        let secs = self.tx_interval as int / 1000 * hold;
        if secs > 0xffff {
            0xffff
        } else {
            secs
        }
    }
}

impl Default for Config {
    fn default() -> (r: Config)
        ensures
            r.wf(),
            !r.disabled,
            r.tx_interval == 30_000,
            r.hold_multiplier == DEFAULT_HOLD_MULTIPLIER,
            r.disabled_ports.entries@.len() == 0,
    {
        Config {
            disabled: false,
            tx_interval: DEFAULT_TX_INTERVAL as u64 * 1000,
            hold_multiplier: DEFAULT_HOLD_MULTIPLIER,
            disabled_ports: OrdMap::new(),
        }
    }
}

#[derive(Debug, Clone)]
pub struct LinkEvent {
    pub port: String,
    pub up: bool,
}

/// A neighbor and when it was last heard, in milliseconds.
#[derive(Debug, Clone)]
pub struct Learned {
    pub neighbor: Neighbor,
    pub last_seen: u64,
}

impl DeepView for Learned {
    type V = (NeighborModel, u64);

    open spec fn deep_view(&self) -> (NeighborModel, u64) {
        (self.neighbor.deep_view(), self.last_seen)
    }
}

pub struct PortState {
    pub info: PortInfo,
    pub up: bool,
    pub frames_tx: u64,
    pub frames_rx: u64,
    pub frames_discarded: u64,
    pub ageouts: u64,
    pub last_tx: Option<u64>,
    /// Keyed by (chassis id, port id) — the MSAP identifier.
    pub neighbors: OrdMap<(String, String), Learned>,
}

/// A port with its neighbors as a map.
#[verifier::ext_equal]
pub struct PortModel {
    pub info: PortInfo,
    pub up: bool,
    pub frames_tx: u64,
    pub frames_rx: u64,
    pub frames_discarded: u64,
    pub ageouts: u64,
    pub last_tx: Option<u64>,
    pub neighbors: Map<(Seq<char>, Seq<char>), (NeighborModel, u64)>,
}

pub open spec fn neighbors_model(m: OrdMap<(String, String), Learned>) -> Map<
    (Seq<char>, Seq<char>),
    (NeighborModel, u64),
> {
    Map::new(
        |k: (Seq<char>, Seq<char>)| m@.dom().contains(k),
        |k: (Seq<char>, Seq<char>)| m@[k].deep_view(),
    )
}

/// A port of which nothing is known but its info.
pub open spec fn new_port(info: PortInfo) -> PortModel {
    PortModel {
        info,
        up: false,
        frames_tx: 0,
        frames_rx: 0,
        frames_discarded: 0,
        ageouts: 0,
        last_tx: None,
        neighbors: Map::empty(),
    }
}

/// A port after a link event: a flapped link re-advertises at once rather
/// than waiting out the interval, and a lost one forgets its neighbors.
pub open spec fn linked(p: PortModel, up: bool) -> PortModel {
    if p.up != up {
        PortModel {
            up,
            last_tx: None,
            neighbors: if up {
                p.neighbors
            } else {
                Map::empty()
            },
            ..p
        }
    } else {
        p
    }
}

/// A port after a frame: a neighbor is learned, withdrawn by a TTL of 0 (a
/// shutdown PDU), or the frame discarded.
pub open spec fn received(p: PortModel, frame: Seq<u8>, now: u64) -> PortModel {
    let q = PortModel { frames_rx: (p.frames_rx + 1) as u64, ..p };
    match decoded(frame) {
        Some(n) => {
            let key = (n.chassis_id, n.port_id);
            PortModel {
                neighbors: if n.ttl == 0 {
                    p.neighbors.remove(key)
                } else {
                    p.neighbors.insert(key, (n, now))
                },
                ..q
            }
        },
        None => PortModel { frames_discarded: (p.frames_discarded + 1) as u64, ..q },
    }
}

/// Does a neighbor's advertised TTL still run?
pub open spec fn lives(now: u64) -> spec_fn((Seq<char>, Seq<char>), Learned) -> bool {
    |k: (Seq<char>, Seq<char>), l: Learned|
        crate::clock::since(now, l.last_seen) / 1000 < l.neighbor.ttl
}

/// The same of a neighbor as mathematical values.
pub open spec fn still_lives(now: u64) -> spec_fn(
    (Seq<char>, Seq<char>),
    (NeighborModel, u64),
) -> bool {
    |k: (Seq<char>, Seq<char>), l: (NeighborModel, u64)|
        crate::clock::since(now, l.1) / 1000 < l.0.ttl
}

/// Is an advertisement due?
pub open spec fn advertises(p: PortModel, enabled: bool, interval: u64, now: u64) -> bool {
    enabled && p.up && (p.last_tx matches Some(at) ==> crate::clock::since(now, at) >= interval)
}

/// A port after an evaluation pass; `gone` neighbors aged out. A disabled
/// port keeps its counters but sheds what it learned.
pub open spec fn port_stepped(
    p: PortModel,
    enabled: bool,
    interval: u64,
    now: u64,
    gone: int,
) -> PortModel {
    if !enabled {
        PortModel { neighbors: Map::empty(), last_tx: None, ..p }
    } else {
        let q = PortModel {
            neighbors: crate::ordmap::kept(p.neighbors, still_lives(now)),
            ageouts: (p.ageouts + gone) as u64,
            ..p
        };
        if !p.up {
            PortModel { last_tx: None, ..q }
        } else if advertises(p, enabled, interval, now) {
            PortModel { last_tx: Some(now), frames_tx: (p.frames_tx + 1) as u64, ..q }
        } else {
            q
        }
    }
}

/// How many neighbors, of the first `n`, have aged out.
pub open spec fn gone_count(
    s: Seq<((String, String), Learned)>,
    now: u64,
    n: int,
) -> int
    decreases n,
{
    if n <= 0 {
        0
    } else {
        gone_count(s, now, n - 1) + if lives(now)(s[n - 1].0@, s[n - 1].1) {
            0int
        } else {
            1
        }
    }
}

impl PortState {
    pub open spec fn wf(&self) -> bool {
        self.neighbors.wf()
    }

    pub open spec fn model(&self) -> PortModel {
        PortModel {
            info: self.info,
            up: self.up,
            frames_tx: self.frames_tx,
            frames_rx: self.frames_rx,
            frames_discarded: self.frames_discarded,
            ageouts: self.ageouts,
            last_tx: self.last_tx,
            neighbors: neighbors_model(self.neighbors),
        }
    }

    /// No counter that a pass may raise is at its end.
    pub open spec fn fits(&self) -> bool {
        self.frames_tx < u64::MAX && self.ageouts + self.neighbors.entries@.len() <= u64::MAX
    }

    fn new(info: PortInfo) -> (r: PortState)
        ensures
            r.wf(),
            r.model() == new_port(info),
    {
        let r = PortState {
            info,
            up: false,
            frames_tx: 0,
            frames_rx: 0,
            frames_discarded: 0,
            ageouts: 0,
            last_tx: None,
            neighbors: OrdMap::new(),
        };
        assert(r.model() =~= new_port(info));
        r
    }

    fn forget(&mut self)
        ensures
            final(self).wf(),
            final(self).model() == (PortModel {
                neighbors: Map::empty(),
                ..old(self).model()
            }),
    {
        self.neighbors.clear();
        assert(self.model().neighbors =~= Map::<
            (Seq<char>, Seq<char>),
            (NeighborModel, u64),
        >::empty());
    }

    fn receive(&mut self, frame: &[u8], now: u64)
        requires
            old(self).wf(),
            old(self).frames_rx < u64::MAX,
            old(self).frames_discarded < u64::MAX,
        ensures
            final(self).wf(),
            final(self).model() == received(old(self).model(), frame@, now),
    {
        let ghost before = self.model();
        self.frames_rx = self.frames_rx + 1;
        match decode(frame) {
            Some(neighbor) => {
                let ghost n = neighbor.deep_view();
                let key = (neighbor.chassis_id.clone(), neighbor.port_id.clone());
                let ghost k = (n.chassis_id, n.port_id);
                assert(key@ == k);
                // TTL 0 is a shutdown PDU: the neighbor withdraws itself.
                if neighbor.ttl == 0 {
                    self.neighbors.remove(&key);
                    assert(self.model().neighbors =~= before.neighbors.remove(k));
                } else {
                    let learned = Learned { neighbor, last_seen: now };
                    let ghost l = learned.deep_view();
                    self.neighbors.insert(key, learned);
                    assert(self.model().neighbors =~= before.neighbors.insert(k, l));
                }
            },
            None => {
                self.frames_discarded = self.frames_discarded + 1;
            },
        }
    }

    /// Age out neighbors whose advertised TTL has run out.
    fn age(&mut self, now: u64)
        requires
            old(self).wf(),
            old(self).fits(),
        ensures
            final(self).wf(),
            final(self).model() == (PortModel {
                neighbors: crate::ordmap::kept(old(self).model().neighbors, still_lives(now)),
                ageouts: (old(self).ageouts + gone_count(
                    old(self).neighbors.entries@,
                    now,
                    old(self).neighbors.entries@.len() as int,
                )) as u64,
                ..old(self).model()
            }),
    {
        let ghost before = self.model();
        let ghost all = self.neighbors.entries@;
        let mut gone: u64 = 0;
        let mut i: usize = 0;
        while i < self.neighbors.entries.len()
            invariant
                all == self.neighbors.entries@,
                i <= all.len(),
                gone == gone_count(all, now, i as int),
                gone <= i,
                self.ageouts + all.len() <= u64::MAX,
            decreases all.len() - i,
        {
            let l = &self.neighbors.entries[i].1;
            if elapsed(now, l.last_seen) / 1000 >= l.neighbor.ttl as u64 {
                gone = gone + 1;
            }
            i = i + 1;
        }
        let keep = |k: &(String, String), l: &Learned| -> (r: bool)
            ensures
                r == lives(now)(k@, *l),
            { elapsed(now, l.last_seen) / 1000 < l.neighbor.ttl as u64 };
        self.neighbors.retain(keep, Ghost(lives(now)));
        self.ageouts = self.ageouts + gone;
        assert(self.model().neighbors =~= crate::ordmap::kept(
            before.neighbors,
            still_lives(now),
        ));
    }

    /// One port's part of an evaluation pass; true where an advertisement
    /// goes out.
    fn step(&mut self, enabled: bool, interval: u64, now: u64) -> (sends: bool)
        requires
            old(self).wf(),
            old(self).fits(),
        ensures
            final(self).wf(),
            final(self).model() == port_stepped(
                old(self).model(),
                enabled,
                interval,
                now,
                gone_count(
                    old(self).neighbors.entries@,
                    now,
                    old(self).neighbors.entries@.len() as int,
                ),
            ),
            sends == advertises(old(self).model(), enabled, interval, now),
            final(self).info == old(self).info,
    {
        if !enabled {
            // A disabled port keeps its counters but sheds what it
            // learned — `show lldp` must not list stale neighbors.
            self.forget();
            self.last_tx = None;
            return false;
        }
        self.age(now);
        if !self.up {
            self.last_tx = None;
            return false;
        }
        let due = match self.last_tx {
            Some(at) => elapsed(now, at) >= interval,
            None => true,
        };
        if !due {
            return false;
        }
        self.last_tx = Some(now);
        self.frames_tx = self.frames_tx + 1;
        true
    }
}

pub struct Engine {
    pub config: Config,
    pub system: System,
    pub ports: OrdMap<String, PortState>,
}

/// The ports under a new list of them: those that stay keep their state,
/// those that disappear take their learned neighbors with them.
pub open spec fn ports_after(
    had: Map<Seq<char>, PortModel>,
    ports: Map<Seq<char>, PortInfo>,
) -> Map<Seq<char>, PortModel> {
    Map::new(
        |n: Seq<char>| ports.dom().contains(n),
        |n: Seq<char>|
            if had.dom().contains(n) {
                PortModel { info: ports[n], ..had[n] }
            } else {
                new_port(ports[n])
            },
    )
}

/// What the first `n` ports send in an evaluation pass.
pub open spec fn frames(
    ports: Seq<(String, PortState)>,
    system: System,
    config: Config,
    now: u64,
    n: int,
) -> Seq<(Seq<char>, Seq<u8>)>
    decreases n,
{
    if n <= 0 {
        Seq::empty()
    } else {
        let front = frames(ports, system, config, now, n - 1);
        let p = ports[n - 1].1;
        let name = ports[n - 1].0@;
        if advertises(p.model(), config.enables(name), config.tx_interval, now) {
            front.push(
                (
                    name,
                    crate::dhcp::padded(
                        advertisement(system, name, p.info, config.lifetime() as u16),
                    ),
                ),
            )
        } else {
            front
        }
    }
}

/// A port whose counters have been zeroed.
pub open spec fn cleared(p: PortModel) -> PortModel {
    PortModel { frames_tx: 0, frames_rx: 0, frames_discarded: 0, ageouts: 0, ..p }
}

/// Is a port in the scope of a clear? An empty name means all of them.
pub open spec fn in_scope(scope: Seq<char>, name: Seq<char>) -> bool {
    scope.len() == 0 || name == scope
}

/// How many of the first `n` ports are in the scope of a clear.
pub open spec fn scope_count(ports: Seq<(String, PortState)>, scope: Seq<char>, n: int) -> int
    decreases n,
{
    if n <= 0 {
        0
    } else {
        scope_count(ports, scope, n - 1) + if in_scope(scope, ports[n - 1].0@) {
            1int
        } else {
            0
        }
    }
}

impl Engine {
    pub open spec fn wf(&self) -> bool {
        &&& self.config.wf()
        &&& self.ports.wf()
        &&& forall|i: int| 0 <= i < self.ports.entries@.len() ==> (#[trigger] self.ports.entries@[i]).1.wf()
    }

    /// The ports by name.
    pub open spec fn models(&self) -> Map<Seq<char>, PortModel> {
        Map::new(
            |n: Seq<char>| self.ports@.dom().contains(n),
            |n: Seq<char>| self.ports@[n].model(),
        )
    }

    /// No counter that a pass may raise is at its end.
    pub open spec fn room(&self) -> bool {
        forall|i: int|
            0 <= i < self.ports.entries@.len() ==> (#[trigger] self.ports.entries@[i]).1.fits()
    }

    pub fn spawn(system_mac: [u8; 6]) -> (r: Engine)
        ensures
            r.wf(),
            !r.config.disabled,
            r.config.tx_interval == 30_000,
            r.config.hold_multiplier == DEFAULT_HOLD_MULTIPLIER,
            r.config.disabled_ports.entries@.len() == 0,
            r.system.chassis_mac == system_mac,
            r.system.name@.len() == 0,
            r.system.description@.len() == 0,
            r.system.management_address@.len() == 0,
            r.ports.entries@.len() == 0,
    {
        let mut system = System::default();
        system.chassis_mac = system_mac;
        Engine { config: Config::default(), system, ports: OrdMap::new() }
    }

    /// Replace the configuration (declarative). An evaluation pass is due
    /// after it.
    pub fn set_config(&mut self, config: Config)
        requires
            old(self).wf(),
            config.wf(),
        ensures
            final(self).wf(),
            final(self).config == (Config {
                tx_interval: if config.tx_interval == 0 {
                    30_000
                } else {
                    config.tx_interval
                },
                hold_multiplier: if config.hold_multiplier == 0 {
                    DEFAULT_HOLD_MULTIPLIER
                } else {
                    config.hold_multiplier
                },
                ..config
            }),
            final(self).system == old(self).system,
            final(self).ports == old(self).ports,
    {
        let mut config = config;
        if config.tx_interval == 0 {
            config.tx_interval = DEFAULT_TX_INTERVAL as u64 * 1000;
        }
        if config.hold_multiplier == 0 {
            config.hold_multiplier = DEFAULT_HOLD_MULTIPLIER;
        }
        self.config = config;
    }

    /// Refresh the advertised identity (hostname, version, management
    /// address, chassis MAC).
    pub fn set_system(&mut self, system: System)
        requires
            old(self).wf(),
        ensures
            final(self).wf(),
            final(self).system == system,
            final(self).config == old(self).config,
            final(self).ports == old(self).ports,
    {
        self.system = system;
    }

    /// The advertised TTL.
    pub fn ttl(&self) -> (r: u16)
        requires
            self.wf(),
        ensures
            r == self.config.lifetime(),
    {
        let hold: u64 = if self.config.hold_multiplier == 0 {
            1
        } else {
            self.config.hold_multiplier as u64
        };
        let secs: u64 = self.config.tx_interval / 1000;
        assert(secs * hold <= secs * 255) by (nonlinear_arith)
            requires
                hold <= 255,
        ;
        let life: u64 = secs * hold;
        if life > 0xffff {
            0xffff
        } else {
            life as u16
        }
    }

    fn port_enabled(&self, port: &str) -> (r: bool)
        requires
            self.wf(),
        ensures
            r == self.config.enables(port@),
    {
        !self.config.disabled && !self.config.disabled_ports.has(port)
    }

    /// The front-panel ports LLDP runs on, from syncd's interface view.
    /// Ports that disappear take their learned neighbors with them.
    pub fn set_ports(&mut self, ports: OrdMap<String, PortInfo>)
        requires
            old(self).wf(),
            ports.wf(),
        ensures
            final(self).wf(),
            final(self).config == old(self).config,
            final(self).system == old(self).system,
            final(self).models() == ports_after(old(self).models(), ports@),
    {
        let ghost had = self.models();
        let ghost goal = ports_after(had, ports@);
        let ghost es = ports.entries@;
        let mut fresh: Vec<(String, PortState)> = Vec::new();
        let mut i: usize = 0;
        while i < ports.entries.len()
            invariant
                ports.wf(),
                es == ports.entries@,
                i <= es.len(),
                self.config == old(self).config,
                self.system == old(self).system,
                self.config.wf(),
                self.ports.wf(),
                forall|j: int|
                    0 <= j < self.ports.entries@.len() ==> (
                    #[trigger] self.ports.entries@[j]).1.wf(),
                forall|n: Seq<char>| #[trigger]
                    had.dom().contains(n) && !crate::ordmap::has_key(es, i as int, n)
                        ==> self.ports@.dom().contains(n),
                forall|n: Seq<char>| #[trigger]
                    self.ports@.dom().contains(n) ==> had.dom().contains(n)
                        && self.ports@[n].model() == had[n],
                goal == ports_after(had, ports@),
                fresh@.len() == i,
                forall|j: int|
                    0 <= j < i ==> (#[trigger] fresh@[j]).0@ == es[j].0@ && fresh@[j].1.wf()
                        && fresh@[j].1.model() == goal[es[j].0@],
            decreases es.len() - i,
        {
            let ghost name = es[i as int].0@;
            let ghost rest = self.ports@;
            proof {
                crate::ordmap::lemma_map_of_entry(es, i as int);
                crate::ordmap::lemma_has_key_next(es, i as int);
                if crate::ordmap::has_key(es, i as int, name) {
                    let j = choose|j: int| 0 <= j < i && (#[trigger] es[j]).0@ == name;
                    crate::ordmap::lemma_rising_unique(es, i as int, j);
                }
            }
            let info = PortInfo {
                mac: ports.entries[i].1.mac,
                description: ports.entries[i].1.description.clone(),
            };
            assert(info == es[i as int].1);
            let taken = self.take_port(&ports.entries[i].0);
            let state = match taken {
                Some(state) => {
                    let mut state = state;
                    state.info = info;
                    state
                },
                None => PortState::new(info),
            };
            assert(state.model() =~= goal[name]);
            fresh.push((ports.entries[i].0.clone(), state));
            proof {
                assert forall|n: Seq<char>| #[trigger]
                    had.dom().contains(n) && !crate::ordmap::has_key(
                        es,
                        i + 1,
                        n,
                    ) implies self.ports@.dom().contains(n) by {
                    assert(rest.dom().contains(n));
                }
            }
            i = i + 1;
        }
        self.ports = OrdMap { entries: fresh };
        proof {
            let fs = self.ports.entries@;
            assert forall|a: int, b: int| 0 <= a < b < fs.len() implies String::before(
                (#[trigger] fs[a]).0@,
                (#[trigger] fs[b]).0@,
            ) by {
                assert(String::before(es[a].0@, es[b].0@));
            }
            let got = self.models();
            assert forall|n: Seq<char>| #[trigger] got.dom().contains(n) <==> goal.dom().contains(
                n,
            ) by {
                if got.dom().contains(n) {
                    let j = choose|j: int| 0 <= j < fs.len() && (#[trigger] fs[j]).0@ == n;
                    assert(es[j].0@ == n);
                }
                if goal.dom().contains(n) {
                    let j = choose|j: int| 0 <= j < es.len() && (#[trigger] es[j]).0@ == n;
                    assert(fs[j].0@ == n);
                }
            }
            assert forall|n: Seq<char>| #[trigger] got.dom().contains(n) implies got[n]
                == goal[n] by {
                let j = choose|j: int| 0 <= j < fs.len() && (#[trigger] fs[j]).0@ == n;
                crate::ordmap::lemma_map_of_entry(fs, j);
            }
            assert(got =~= goal);
        }
    }

    /// Take a port out of the table.
    fn take_port(&mut self, name: &String) -> (r: Option<PortState>)
        requires
            old(self).wf(),
        ensures
            final(self).wf(),
            final(self).config == old(self).config,
            final(self).system == old(self).system,
            final(self).ports@ == old(self).ports@.remove(name@),
            match r {
                Some(state) => state.wf() && old(self).ports@.dom().contains(name@) && state
                    == old(self).ports@[name@],
                None => !old(self).ports@.dom().contains(name@),
            },
    {
        let ghost before = self.ports.entries@;
        match self.ports.find(name) {
            Some(i) => {
                let taken = self.ports.entries.remove(i);
                proof {
                    crate::ordmap::lemma_rising_remove(before, i as int);
                    assert(self.ports.entries@ =~= before.remove(i as int));
                    assert forall|j: int| 0 <= j < self.ports.entries@.len() implies (
                    #[trigger] self.ports.entries@[j]).1.wf() by {
                        let x = if j < i { j } else { j + 1 };
                        assert(self.ports.entries@[j] == before[x]);
                    }
                }
                Some(taken.1)
            },
            None => {
                assert(self.ports@ =~= self.ports@.remove(name@));
                None
            },
        }
    }

    /// Put a port into the table.
    fn put_port(&mut self, name: String, state: PortState)
        requires
            old(self).wf(),
            state.wf(),
        ensures
            final(self).wf(),
            final(self).config == old(self).config,
            final(self).system == old(self).system,
            final(self).ports@ == old(self).ports@.insert(name@, state),
    {
        let ghost before = self.ports;
        self.ports.insert(name, state);
        proof {
            assert forall|j: int| 0 <= j < self.ports.entries@.len() implies (
            #[trigger] self.ports.entries@[j]).1.wf() by {
                crate::ordmap::lemma_map_of_entry(self.ports.entries@, j);
                let n = self.ports.entries@[j].0@;
                assert(self.ports@.dom().contains(n));
                if n != name@ {
                    assert(before@.dom().contains(n));
                    let x = choose|x: int|
                        0 <= x < before.entries@.len() && (#[trigger] before.entries@[x]).0@ == n;
                    crate::ordmap::lemma_map_of_entry(before.entries@, x);
                }
            }
        }
    }

    /// A port's link changed. An evaluation pass is due after it.
    pub fn on_link(&mut self, event: LinkEvent)
        requires
            old(self).wf(),
        ensures
            final(self).wf(),
            final(self).config == old(self).config,
            final(self).system == old(self).system,
            final(self).models() == if old(self).models().dom().contains(event.port@) {
                old(self).models().insert(
                    event.port@,
                    linked(old(self).models()[event.port@], event.up),
                )
            } else {
                old(self).models()
            },
    {
        let ghost before = self.models();
        match self.take_port(&event.port) {
            Some(state) => {
                let mut state = state;
                let ghost was = state.model();
                if state.up != event.up {
                    state.up = event.up;
                    // A flapped link re-advertises at once rather than
                    // waiting out the interval.
                    state.last_tx = None;
                    if !event.up {
                        state.forget();
                    }
                }
                assert(state.model() =~= linked(was, event.up));
                let ghost name = event.port@;
                self.put_port(event.port, state);
                assert(self.models() =~= before.insert(name, linked(was, event.up)));
            },
            None => {
                assert(self.models() =~= before);
            },
        }
    }

    /// One received frame: parsed into a neighbor, or counted as a
    /// discard. An evaluation pass is due after it.
    pub fn on_frame(&mut self, port: &str, frame: &[u8], now: u64)
        requires
            old(self).wf(),
            old(self).models().dom().contains(port@) ==> old(self).models()[port@].frames_rx
                < u64::MAX && old(self).models()[port@].frames_discarded < u64::MAX,
        ensures
            final(self).wf(),
            final(self).config == old(self).config,
            final(self).system == old(self).system,
            final(self).models() == if old(self).config.enables(port@) && old(self).models().dom().contains(port@) {
                old(self).models().insert(
                    port@,
                    received(old(self).models()[port@], frame@, now),
                )
            } else {
                old(self).models()
            },
    {
        if !self.port_enabled(port) {
            return;
        }
        let ghost before = self.models();
        let name = port.to_owned();
        match self.take_port(&name) {
            Some(state) => {
                let mut state = state;
                assert(before.dom().contains(port@));
                state.receive(frame, now);
                let ghost m = state.model();
                self.put_port(name, state);
                assert(self.models() =~= before.insert(port@, m));
            },
            None => {
                assert(self.models() =~= before);
            },
        }
    }

    /// Is no counter at its end?
    pub fn has_room(&self) -> (r: bool)
        ensures
            r == self.room(),
    {
        let mut i: usize = 0;
        while i < self.ports.entries.len()
            invariant
                i <= self.ports.entries@.len(),
                forall|j: int| 0 <= j < i ==> (#[trigger] self.ports.entries@[j]).1.fits(),
            decreases self.ports.entries@.len() - i,
        {
            let p = &self.ports.entries[i].1;
            if p.frames_tx == u64::MAX || p.neighbors.entries.len() as u64 > u64::MAX - p.ageouts {
                assert(!self.ports.entries@[i as int].1.fits());
                return false;
            }
            i = i + 1;
        }
        true
    }

    /// One evaluation pass: due advertisements out, expired neighbors gone.
    pub fn step(&mut self, now: u64) -> (r: Vec<(String, Vec<u8>)>)
        requires
            old(self).wf(),
            old(self).room(),
        ensures
            final(self).wf(),
            final(self).config == old(self).config,
            final(self).system == old(self).system,
            final(self).ports.entries@.len() == old(self).ports.entries@.len(),
            forall|i: int|
                0 <= i < final(self).ports.entries@.len() ==> (#[trigger] final(self).ports.entries@[i]).0
                    == old(self).ports.entries@[i].0 && final(self).ports.entries@[i].1.model()
                    == port_stepped(
                    old(self).ports.entries@[i].1.model(),
                    old(self).config.enables(old(self).ports.entries@[i].0@),
                    old(self).config.tx_interval,
                    now,
                    gone_count(
                        old(self).ports.entries@[i].1.neighbors.entries@,
                        now,
                        old(self).ports.entries@[i].1.neighbors.entries@.len() as int,
                    ),
                ),
            r.deep_view() == frames(
                old(self).ports.entries@,
                old(self).system,
                old(self).config,
                now,
                old(self).ports.entries@.len() as int,
            ),
    {
        let ghost before = self.ports.entries@;
        let ghost c = self.config;
        let ghost sys = self.system;
        let ttl: u16 = self.ttl();
        let interval: u64 = self.config.tx_interval;
        let mut r: Vec<(String, Vec<u8>)> = Vec::new();
        let mut i: usize = 0;
        assert(r.deep_view() =~= Seq::<(Seq<char>, Seq<u8>)>::empty());
        while i < self.ports.entries.len()
            invariant
                crate::ordmap::rising(before),
                i <= before.len() == self.ports.entries@.len(),
                c == self.config,
                c == old(self).config,
                c.wf(),
                sys == self.system,
                sys == old(self).system,
                ttl == c.lifetime(),
                interval == c.tx_interval,
                forall|j: int| 0 <= j < before.len() ==> (#[trigger] before[j]).1.wf()
                    && before[j].1.fits(),
                self.ports.wf(),
                forall|j: int|
                    0 <= j < before.len() ==> (#[trigger] self.ports.entries@[j]).0 == before[j].0
                        && self.ports.entries@[j].1.wf(),
                forall|j: int|
                    i <= j < before.len() ==> (#[trigger] self.ports.entries@[j]).1
                        == before[j].1,
                forall|j: int|
                    0 <= j < i ==> (#[trigger] self.ports.entries@[j]).1.model() == port_stepped(
                        before[j].1.model(),
                        c.enables(before[j].0@),
                        interval,
                        now,
                        gone_count(
                            before[j].1.neighbors.entries@,
                            now,
                            before[j].1.neighbors.entries@.len() as int,
                        ),
                    ),
                r.deep_view() == frames(before, sys, c, now, i as int),
            decreases before.len() - i,
        {
            let ghost here = self.ports.entries@;
            let enabled = self.port_enabled(self.ports.entries[i].0.as_str());
            let sends = self.ports.entries[i].1.step(enabled, interval, now);
            proof {
                assert forall|j: int| 0 <= j < before.len() && j != i implies (
                #[trigger] self.ports.entries@[j]) == here[j] by {}
                let after = self.ports.entries@;
                assert forall|a: int, b: int| 0 <= a < b < after.len() implies String::before(
                    (#[trigger] after[a]).0@,
                    (#[trigger] after[b]).0@,
                ) by {
                    assert(String::before(before[a].0@, before[b].0@));
                }
            }
            if sends {
                let ghost had = r.deep_view();
                let frame = encode(
                    &self.system,
                    self.ports.entries[i].0.as_str(),
                    &self.ports.entries[i].1.info,
                    ttl,
                );
                assert(frame.deep_view() =~= frame@);
                let item = (self.ports.entries[i].0.clone(), frame);
                let ghost iv = item.deep_view();
                r.push(item);
                assert(r.deep_view() =~= had.push(iv));
            }
            i = i + 1;
        }
        r
    }

    /// Zero the frame counters, optionally scoped to one port. Returns
    /// how many ports were cleared.
    pub fn clear_counters(&mut self, port: &str) -> (count: u32)
        requires
            old(self).wf(),
            old(self).ports.entries@.len() <= u32::MAX,
        ensures
            final(self).wf(),
            final(self).config == old(self).config,
            final(self).system == old(self).system,
            final(self).ports.entries@.len() == old(self).ports.entries@.len(),
            forall|i: int|
                0 <= i < final(self).ports.entries@.len() ==> (#[trigger] final(self).ports.entries@[i]).0
                    == old(self).ports.entries@[i].0 && final(self).ports.entries@[i].1.model()
                    == if in_scope(port@, old(self).ports.entries@[i].0@) {
                    cleared(old(self).ports.entries@[i].1.model())
                } else {
                    old(self).ports.entries@[i].1.model()
                },
            count == scope_count(
                old(self).ports.entries@,
                port@,
                old(self).ports.entries@.len() as int,
            ),
    {
        let ghost before = self.ports.entries@;
        let mut count: u32 = 0;
        let mut i: usize = 0;
        while i < self.ports.entries.len()
            invariant
                crate::ordmap::rising(before),
                i <= before.len() == self.ports.entries@.len(),
                before.len() <= u32::MAX,
                count == scope_count(before, port@, i as int),
                count <= i,
                self.config == old(self).config,
                self.system == old(self).system,
                self.config.wf(),
                forall|j: int|
                    0 <= j < before.len() ==> (#[trigger] self.ports.entries@[j]).0 == before[j].0
                        && self.ports.entries@[j].1.wf(),
                forall|j: int|
                    i <= j < before.len() ==> (#[trigger] self.ports.entries@[j]).1
                        == before[j].1,
                forall|j: int|
                    0 <= j < i ==> (#[trigger] self.ports.entries@[j]).1.model() == if in_scope(
                        port@,
                        before[j].0@,
                    ) {
                        cleared(before[j].1.model())
                    } else {
                        before[j].1.model()
                    },
            decreases before.len() - i,
        {
            let ghost here = self.ports.entries@;
            if port.is_empty() || same_text(self.ports.entries[i].0.as_str(), port) {
                self.ports.entries[i].1.frames_tx = 0;
                self.ports.entries[i].1.frames_rx = 0;
                self.ports.entries[i].1.frames_discarded = 0;
                self.ports.entries[i].1.ageouts = 0;
                count = count + 1;
            }
            proof {
                assert forall|j: int| 0 <= j < before.len() && j != i implies (
                #[trigger] self.ports.entries@[j]) == here[j] by {}
            }
            i = i + 1;
        }
        proof {
            let after = self.ports.entries@;
            assert forall|a: int, b: int| 0 <= a < b < after.len() implies String::before(
                (#[trigger] after[a]).0@,
                (#[trigger] after[b]).0@,
            ) by {
                assert(String::before(before[a].0@, before[b].0@));
            }
        }
        count
    }
}

// --------------------------------------------------------------- snapshot

#[derive(Debug, Clone)]
pub struct NeighborSnapshot {
    pub neighbor: Neighbor,
    /// Seconds since the last frame from this neighbor.
    pub age_secs: u64,
}

#[derive(Debug, Clone)]
pub struct PortSnapshot {
    pub port: String,
    pub enabled: bool,
    pub frames_tx: u64,
    pub frames_rx: u64,
    pub frames_discarded: u64,
    pub ageouts: u64,
    pub neighbors: Vec<NeighborSnapshot>,
}

#[derive(Debug, Clone)]
pub struct Snapshot {
    pub enabled: bool,
    pub tx_interval_secs: u32,
    pub hold_multiplier: u8,
    pub chassis_id: String,
    pub system_name: String,
    pub system_description: String,
    pub management_address: String,
    pub ports: Vec<PortSnapshot>,
}

/// A row shows a port as it is.
pub open spec fn shows_port(
    r: PortSnapshot,
    e: (String, PortState),
    config: Config,
    now: u64,
) -> bool {
    let ns = e.1.neighbors.entries@;
    &&& r.port@ == e.0@
    &&& r.enabled == config.enables(e.0@)
    &&& r.frames_tx == e.1.frames_tx
    &&& r.frames_rx == e.1.frames_rx
    &&& r.frames_discarded == e.1.frames_discarded
    &&& r.ageouts == e.1.ageouts
    &&& r.neighbors@.len() == ns.len()
    &&& forall|i: int|
        0 <= i < ns.len() ==> (#[trigger] r.neighbors@[i]).neighbor.deep_view()
            == ns[i].1.neighbor.deep_view() && r.neighbors@[i].age_secs == crate::clock::since(
            now,
            ns[i].1.last_seen,
        ) / 1000
}

impl Neighbor {
    fn copy(&self) -> (r: Neighbor)
        ensures
            r.deep_view() == self.deep_view(),
    {
        Neighbor {
            chassis_id: self.chassis_id.clone(),
            chassis_id_subtype: self.chassis_id_subtype.clone(),
            port_id: self.port_id.clone(),
            port_id_subtype: self.port_id_subtype.clone(),
            port_description: self.port_description.clone(),
            system_name: self.system_name.clone(),
            system_description: self.system_description.clone(),
            management_address: self.management_address.clone(),
            ttl: self.ttl,
        }
    }
}

impl Engine {
    fn show_port(&self, i: usize, now: u64) -> (r: PortSnapshot)
        requires
            self.wf(),
            i < self.ports.entries@.len(),
        ensures
            shows_port(r, self.ports.entries@[i as int], self.config, now),
    {
        let e = &self.ports.entries[i];
        let ghost ns = e.1.neighbors.entries@;
        let mut neighbors: Vec<NeighborSnapshot> = Vec::new();
        let mut k: usize = 0;
        while k < e.1.neighbors.entries.len()
            invariant
                ns == e.1.neighbors.entries@,
                k <= ns.len(),
                neighbors@.len() == k,
                forall|j: int|
                    0 <= j < k ==> (#[trigger] neighbors@[j]).neighbor.deep_view()
                        == ns[j].1.neighbor.deep_view() && neighbors@[j].age_secs
                        == crate::clock::since(now, ns[j].1.last_seen) / 1000,
            decreases ns.len() - k,
        {
            let l = &e.1.neighbors.entries[k].1;
            neighbors.push(
                NeighborSnapshot {
                    neighbor: l.neighbor.copy(),
                    age_secs: elapsed(now, l.last_seen) / 1000,
                },
            );
            k = k + 1;
        }
        PortSnapshot {
            port: e.0.clone(),
            enabled: self.port_enabled(e.0.as_str()),
            frames_tx: e.1.frames_tx,
            frames_rx: e.1.frames_rx,
            frames_discarded: e.1.frames_discarded,
            ageouts: e.1.ageouts,
            neighbors,
        }
    }

    /// The state, as it stands at `now`.
    pub fn snapshot(&self, now: u64) -> (r: Snapshot)
        requires
            self.wf(),
        ensures
            r.enabled == !self.config.disabled,
            r.tx_interval_secs == if self.config.tx_interval / 1000 > u32::MAX {
                u32::MAX
            } else {
                (self.config.tx_interval / 1000) as u32
            },
            r.hold_multiplier == self.config.hold_multiplier,
            r.chassis_id@ == crate::mac::mac_chars(self.system.chassis_mac@),
            r.system_name@ == self.system.name@,
            r.system_description@ == self.system.description@,
            r.management_address@ == self.system.management_address@,
            r.ports@.len() == self.ports.entries@.len(),
            forall|i: int|
                0 <= i < r.ports@.len() ==> shows_port(
                    #[trigger] r.ports@[i],
                    self.ports.entries@[i],
                    self.config,
                    now,
                ),
    {
        let mut ports: Vec<PortSnapshot> = Vec::new();
        let mut i: usize = 0;
        while i < self.ports.entries.len()
            invariant
                self.wf(),
                i <= self.ports.entries@.len(),
                ports@.len() == i,
                forall|j: int|
                    0 <= j < i ==> shows_port(
                        #[trigger] ports@[j],
                        self.ports.entries@[j],
                        self.config,
                        now,
                    ),
            decreases self.ports.entries@.len() - i,
        {
            ports.push(self.show_port(i, now));
            i = i + 1;
        }
        let secs: u64 = self.config.tx_interval / 1000;
        Snapshot {
            enabled: !self.config.disabled,
            tx_interval_secs: if secs > u32::MAX as u64 {
                u32::MAX
            } else {
                secs as u32
            },
            hold_multiplier: self.config.hold_multiplier,
            chassis_id: mac_text(self.system.chassis_mac.as_slice()),
            system_name: self.system.name.clone(),
            system_description: self.system.description.clone(),
            management_address: self.system.management_address.clone(),
            ports,
        }
    }
}

// -------------------------------------------------------------------- laws

/// A disabled port neither transmits nor keeps what it learned, and keeps
/// its counters; a port without link does not transmit.
pub proof fn lemma_silent_ports(p: PortModel, enabled: bool, interval: u64, now: u64, gone: int)
    ensures
        !enabled || !p.up ==> !advertises(p, enabled, interval, now),
        !enabled ==> port_stepped(p, enabled, interval, now, gone) == (PortModel {
            neighbors: Map::empty(),
            last_tx: None,
            ..p
        }),
{
}

/// A withdrawal is not an ageout: a shutdown PDU takes its neighbor out and
/// leaves every other one and the ageout counter as they are.
pub proof fn lemma_withdrawal(p: PortModel, frame: Seq<u8>, now: u64)
    requires
        decoded(frame) is Some,
        decoded(frame)->0.ttl == 0,
    ensures
        received(p, frame, now).neighbors == p.neighbors.remove(
            (decoded(frame)->0.chassis_id, decoded(frame)->0.port_id),
        ),
        received(p, frame, now).ageouts == p.ageouts,
{
}

/// No stale neighbor is listed: after an evaluation pass every neighbor was
/// heard less than its TTL ago.
pub proof fn lemma_no_stale_neighbors(
    p: PortModel,
    enabled: bool,
    interval: u64,
    now: u64,
    gone: int,
    k: (Seq<char>, Seq<char>),
)
    requires
        port_stepped(p, enabled, interval, now, gone).neighbors.dom().contains(k),
    ensures
        enabled,
        p.neighbors.dom().contains(k),
        crate::clock::since(now, p.neighbors[k].1) / 1000 < p.neighbors[k].0.ttl,
{
    assert(still_lives(now)(k, p.neighbors[k]));
}

} // verus!
