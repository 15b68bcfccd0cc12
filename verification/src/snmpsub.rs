//! The SNMP AgentX subagent: serves the IF-MIB from syncd's interface
//! state over net-snmp's AgentX socket.
//!
//! syncd owns the ASIC, and the kernel netdevs snmpd would count are
//! hostifs — they see punted control traffic, not the hardware forwarding
//! path. So snmpd keeps transport, auth and the system group, and this
//! subagent registers `ifTable`/`ifXTable` and answers them with exactly
//! the counters `show interfaces counters` prints.
//!
//! Shape: the MIB is a sorted `(OID, Value)` vector rebuilt from a syncd
//! snapshot on a short TTL, and request handling is a pure function over
//! it. The session with the master is a state machine over the PDUs that
//! come in.

use vstd::prelude::*;

use crate::agentx::{
    is_duplicate_registration, open_pdu, parse_request, parse_response, register_pdu, response_pdu,
    BindView, Header, Oid, PduType, RangeView, Request, SearchRange, Value, ValueView, VarBind,
    ERROR_NONE, ERROR_NOT_WRITABLE,
};
use crate::bytes::push_all;
use crate::interfaces::{AdminState, InterfaceState, OperStatus, PortCounters};
use crate::text::{cat2, cat3, copy_texts, decimal, parse_decimal, parse_hex, same_text, split, strip_prefix};

verus! {

/// How long a syncd snapshot is reused, in milliseconds. A poller walking
/// 52 ports issues hundreds of GetNexts in a burst.
pub const CACHE_TTL: u64 = 5000;

/// Registration priority. Lower wins, and the master's own handlers
/// sit at the default 127.
pub const PRIORITY: u8 = 1;

/// The largest payload a PDU may declare.
pub const MAX_PAYLOAD: u32 = 0x10_0000;

/// `1.3.6.1.2.1.2` — the interfaces group (ifNumber + ifTable).
pub const INTERFACES: [u32; 7] = [1, 3, 6, 1, 2, 1, 2];

/// `1.3.6.1.2.1.31.1.1` — ifXTable's parent.
pub const IF_X: [u32; 9] = [1, 3, 6, 1, 2, 1, 31, 1, 1];

/// `1.3.6.1.4.1.62742` — Hemlock's enterprise-style subagent id. Only
/// ever used to name the session to the master.
pub const SUBAGENT_ID: [u32; 7] = [1, 3, 6, 1, 4, 1, 62742];

// ------------------------------------------------------------- the MIB

/// One entry of the MIB as mathematical values.
pub struct EntryView {
    pub oid: Seq<u32>,
    pub value: ValueView,
}

/// The order of OIDs: the first sub-identifier that differs decides, and a
/// proper prefix comes first.
pub open spec fn oid_before(a: Seq<u32>, b: Seq<u32>) -> bool
    decreases a.len(),
{
    if b.len() == 0 {
        false
    } else if a.len() == 0 {
        true
    } else if a[0] != b[0] {
        a[0] < b[0]
    } else {
        oid_before(a.skip(1), b.skip(1))
    }
}

pub proof fn lemma_oid_irreflexive(a: Seq<u32>)
    ensures
        !oid_before(a, a),
    decreases a.len(),
{
    if a.len() > 0 {
        lemma_oid_irreflexive(a.skip(1));
    }
}

pub proof fn lemma_oid_transitive(a: Seq<u32>, b: Seq<u32>, c: Seq<u32>)
    requires
        oid_before(a, b),
        oid_before(b, c),
    ensures
        oid_before(a, c),
    decreases a.len(),
{
    if a.len() > 0 && a[0] == b[0] && b[0] == c[0] {
        lemma_oid_transitive(a.skip(1), b.skip(1), c.skip(1));
    }
}

pub proof fn lemma_oid_total(a: Seq<u32>, b: Seq<u32>)
    ensures
        oid_before(a, b) || a == b || oid_before(b, a),
    decreases a.len(),
{
    if a.len() > 0 && b.len() > 0 {
        if a[0] == b[0] {
            lemma_oid_total(a.skip(1), b.skip(1));
            if a.skip(1) == b.skip(1) {
                assert(a =~= seq![a[0]] + a.skip(1));
                assert(b =~= seq![b[0]] + b.skip(1));
            }
        }
    } else if a.len() == 0 && b.len() == 0 {
        assert(a =~= b);
    }
}

fn is_oid_before(a: &Vec<u32>, b: &Vec<u32>) -> (r: bool)
    ensures
        r == oid_before(a@, b@),
{
    let mut i: usize = 0;
    assert(a@.skip(0) =~= a@ && b@.skip(0) =~= b@);
    while i < a.len() && i < b.len()
        invariant
            i <= a@.len(),
            i <= b@.len(),
            oid_before(a@, b@) == oid_before(a@.skip(i as int), b@.skip(i as int)),
        decreases a@.len() - i,
    {
        let ghost p = a@.skip(i as int);
        let ghost q = b@.skip(i as int);
        assert(p[0] == a@[i as int] && q[0] == b@[i as int]);
        if a[i] != b[i] {
            return a[i] < b[i];
        }
        assert(p.skip(1) =~= a@.skip(i + 1));
        assert(q.skip(1) =~= b@.skip(i + 1));
        i = i + 1;
    }
    i < b.len()
}

fn is_same_oid(a: &Vec<u32>, b: &Vec<u32>) -> (r: bool)
    ensures
        r == (a@ == b@),
{
    if a.len() != b.len() {
        return false;
    }
    let mut i: usize = 0;
    while i < a.len()
        invariant
            i <= a@.len() == b@.len(),
            forall|j: int| 0 <= j < i ==> a@[j] == b@[j],
        decreases a@.len() - i,
    {
        if a[i] != b[i] {
            return false;
        }
        i = i + 1;
    }
    assert(a@ =~= b@);
    true
}

fn copy_oid(oid: &[u32]) -> (r: Oid)
    ensures
        r@ == oid@,
{
    let mut r: Vec<u32> = Vec::new();
    let mut i: usize = 0;
    while i < oid.len()
        invariant
            i <= oid@.len(),
            r@ == oid@.take(i as int),
        decreases oid@.len() - i,
    {
        r.push(oid[i]);
        assert(oid@.take(i + 1) =~= oid@.take(i as int).push(oid@[i as int]));
        i = i + 1;
    }
    assert(oid@.take(i as int) =~= oid@);
    r
}

/// The number behind a prefix of an interface name.
pub open spec fn trailing_number(name: Seq<char>, prefix: Seq<char>) -> Option<int> {
    match crate::text::after_prefix(name, prefix) {
        Some(rest) => crate::text::unsigned_upto(rest, 10, u32::MAX as int),
        None => None,
    }
}

/// A number within a band of some width, with where the band begins.
pub open spec fn banded(base: int, width: int, number: Option<int>) -> Option<(int, int)> {
    match number {
        Some(n) => if n < width {
            Some((base, n))
        } else {
            None
        },
        None => None,
    }
}

/// Where the band of an interface begins, and its number within the band.
/// A number that would run into the next band is in none.
pub open spec fn band_of(kind: Seq<char>, name: Seq<char>, index: u32) -> Option<(int, int)> {
    if kind == "ethernet"@ {
        if index > 0 {
            banded(0, 1000, Some(index as int))
        } else {
            None
        }
    } else if kind == "management"@ {
        banded(1000, 1000, trailing_number(name, "Management"@))
    } else if kind == "port-channel"@ {
        banded(2000, 8000, trailing_number(name, "Port-Channel"@))
    } else if kind == "vlan"@ {
        banded(10000, 0x1_0000_0000 - 10000, trailing_number(name, "Vlan"@))
    } else {
        None
    }
}

/// The ifIndex of an interface: its number counted from where its band
/// begins.
pub open spec fn index_of(kind: Seq<char>, name: Seq<char>, index: u32) -> Option<int> {
    match band_of(kind, name, index) {
        Some((base, n)) => Some(base + n),
        None => None,
    }
}

fn parse_trailing(name: &str, prefix: &str) -> (r: Option<u32>)
    ensures
        match r {
            Some(n) => trailing_number(name@, prefix@) == Some(n as int),
            None => trailing_number(name@, prefix@) is None,
        },
{
    match strip_prefix(name, prefix) {
        Some(rest) => match parse_decimal(rest.as_str(), u32::MAX as u64) {
            Some(n) => Some(n as u32),
            None => None,
        },
        None => None,
    }
}

fn in_band(base: u32, width: u32, number: Option<u32>) -> (r: Option<u32>)
    requires
        base + width <= 0x1_0000_0000,
    ensures
        match (r, number) {
            (Some(index), Some(n)) => n < width && index == base + n,
            (None, Some(n)) => n >= width,
            (Some(_), None) => false,
            (None, None) => true,
        },
{
    match number {
        Some(n) => if n < width {
            Some(base + n)
        } else {
            None
        },
        None => None,
    }
}

/// The IF-MIB ifIndex of one interface. Front-panel ports use the
/// platform manifest's index, which is stable across reboots and
/// matches the port's name; the other kinds get a disjoint band each,
/// so a Port-Channel can never collide with a physical port. A port with
/// no manifest index, or an interface whose number is beyond its band,
/// would alias another's, so it has none.
pub fn if_index(kind: &str, name: &str, index: u32) -> (r: Option<u32>)
    ensures
        match r {
            Some(n) => index_of(kind@, name@, index) == Some(n as int),
            None => index_of(kind@, name@, index) is None,
        },
{
    if same_text(kind, "ethernet") {
        if index > 0 {
            in_band(0, 1000, Some(index))
        } else {
            None
        }
    } else if same_text(kind, "management") {
        in_band(1000, 1000, parse_trailing(name, "Management"))
    } else if same_text(kind, "port-channel") {
        in_band(2000, 8000, parse_trailing(name, "Port-Channel"))
    } else if same_text(kind, "vlan") {
        in_band(10000, u32::MAX - 9999, parse_trailing(name, "Vlan"))
    } else {
        None
    }
}

/// The bands are disjoint: two interfaces never share an ifIndex unless they
/// are of one kind and one number. A Port-Channel never has the ifIndex of a
/// physical port, whatever the names and indexes are.
pub proof fn lemma_bands_disjoint(
    kind1: Seq<char>,
    name1: Seq<char>,
    index1: u32,
    kind2: Seq<char>,
    name2: Seq<char>,
    index2: u32,
)
    requires
        index_of(kind1, name1, index1) is Some,
        index_of(kind1, name1, index1) == index_of(kind2, name2, index2),
    ensures
        kind1 == kind2,
        band_of(kind1, name1, index1) == band_of(kind2, name2, index2),
{
    lemma_trailing_nonneg(name1);
    lemma_trailing_nonneg(name2);
    reveal_strlit("ethernet");
    reveal_strlit("management");
    reveal_strlit("port-channel");
    reveal_strlit("vlan");
    assert("ethernet"@.len() == 8 && "management"@.len() == 10 && "port-channel"@.len() == 12
        && "vlan"@.len() == 4);
}

proof fn lemma_trailing_nonneg(name: Seq<char>)
    ensures
        forall|prefix: Seq<char>|
            (#[trigger] trailing_number(name, prefix)) is Some ==> trailing_number(name, prefix)->0
                >= 0,
{
    assert forall|prefix: Seq<char>|
        (#[trigger] trailing_number(name, prefix)) is Some implies trailing_number(name, prefix)->0
        >= 0 by {
        crate::text::lemma_unsigned_nonneg(name.skip(prefix.len() as int), 10);
    }
}

/// The bytes of a text, as a MIB value.
pub open spec fn octets_view(text: Seq<char>) -> ValueView {
    ValueView::OctetString(vstd::utf8::encode_utf8(text))
}

fn octets(text: &str) -> (r: Value)
    ensures
        r.deep_view() == octets_view(text@),
{
    let mut bytes: Vec<u8> = Vec::new();
    push_all(&mut bytes, text.as_bytes());
    assert(bytes@ =~= vstd::utf8::encode_utf8(text@));
    Value::OctetString(bytes)
}

/// The bytes that the pieces write in hexadecimal; none where a piece is no
/// byte.
pub open spec fn hex_bytes(pieces: Seq<Seq<char>>) -> Option<Seq<u8>>
    decreases pieces.len(),
{
    if pieces.len() == 0 {
        Some(Seq::empty())
    } else {
        match (
            hex_bytes(pieces.drop_last()),
            crate::text::unsigned_upto(pieces.last(), 16, 255),
        ) {
            (Some(front), Some(b)) => Some(front.push(b as u8)),
            _ => None,
        }
    }
}

/// A colon-separated MAC as its six bytes; anything unparsable renders
/// as an empty physical address rather than a wrong one.
pub open spec fn phys_view(mac: Seq<char>) -> ValueView {
    ValueView::OctetString(
        match hex_bytes(crate::text::split_text(mac, ':')) {
            Some(bytes) => if bytes.len() == 6 {
                bytes
            } else {
                Seq::empty()
            },
            None => Seq::empty(),
        },
    )
}

fn read_hex_bytes(parts: &Vec<String>) -> (r: Option<Vec<u8>>)
    ensures
        match r {
            Some(bytes) => hex_bytes(parts.deep_view()) == Some(bytes@),
            None => hex_bytes(parts.deep_view()) is None,
        },
{
    let ghost all = parts.deep_view();
    let mut bytes: Vec<u8> = Vec::new();
    let mut i: usize = 0;
    assert(all.take(0) =~= Seq::<Seq<char>>::empty());
    while i < parts.len()
        invariant
            i <= parts@.len(),
            all == parts.deep_view(),
            hex_bytes(all.take(i as int)) == Some(bytes@),
        decreases parts@.len() - i,
    {
        assert(all.take(i + 1).drop_last() =~= all.take(i as int));
        assert(all.take(i + 1).last() == parts@[i as int]@);
        match parse_hex(parts[i].as_str(), 255) {
            Some(b) => bytes.push(b as u8),
            None => {
                proof {
                    lemma_bad_piece(all, i + 1);
                }
                return None;
            },
        }
        i = i + 1;
    }
    assert(all.take(i as int) =~= all);
    Some(bytes)
}

/// One piece that is no byte is enough.
proof fn lemma_bad_piece(pieces: Seq<Seq<char>>, n: int)
    requires
        0 <= n <= pieces.len(),
        hex_bytes(pieces.take(n)) is None,
    ensures
        hex_bytes(pieces) is None,
    decreases pieces.len(),
{
    if n == pieces.len() {
        assert(pieces.take(n) =~= pieces);
    } else {
        assert(pieces.drop_last().take(n) =~= pieces.take(n));
        lemma_bad_piece(pieces.drop_last(), n);
    }
}

pub fn phys_address(mac: &str) -> (r: Value)
    ensures
        r.deep_view() == phys_view(mac@),
{
    let none: Vec<u8> = Vec::new();
    assert(none@ =~= Seq::<u8>::empty());
    match read_hex_bytes(&split(mac, ':')) {
        Some(bytes) => Value::OctetString(
            if bytes.len() == 6 {
                bytes
            } else {
                none
            },
        ),
        None => Value::OctetString(none),
    }
}

/// Counter32 truncation of a 64-bit counter — the low 32 bits, which
/// is exactly what a 32-bit counter would have wrapped to.
pub open spec fn low32(value: int) -> ValueView {
    ValueView::Counter32((value % 0x1_0000_0000) as u32)
}

fn counter32(value: u64) -> (r: Value)
    ensures
        r.deep_view() == low32(value as int),
{
    Value::Counter32((value % 0x1_0000_0000) as u32)
}

/// ifSpeed is bits per second in a Gauge32, so anything at or above
/// 4.294 Gb/s reports the RFC 2863 sentinel and the real rate lives in
/// ifHighSpeed.
pub open spec fn if_speed(mbps: u64) -> u32 {
    if mbps * 1_000_000 <= u32::MAX {
        (mbps * 1_000_000) as u32
    } else {
        u32::MAX
    }
}

/// Seconds as hundredths, as many as fit in 32 bits; 0 where unknown.
pub open spec fn ticks(secs: Option<u64>) -> u32 {
    match secs {
        Some(s) => if s * 100 <= u32::MAX {
            (s * 100) as u32
        } else {
            u32::MAX
        },
        None => 0,
    }
}

fn ticks_of(secs: Option<u64>) -> (r: u32)
    ensures
        r == ticks(secs),
{
    match secs {
        Some(s) => if s <= 42949672 {
            (s * 100) as u32
        } else {
            u32::MAX
        },
        None => 0,
    }
}

/// The counters of an interface; zeros where it reports none.
pub open spec fn counters_of(iface: InterfaceState) -> PortCounters {
    match iface.counters {
        Some(c) => c,
        None => crate::interfaces::zero_counters(),
    }
}

/// The entry of one column of a table.
pub open spec fn cell(table: Seq<u32>, col: u32, index: u32, value: ValueView) -> EntryView {
    EntryView { oid: table.push(col).push(index), value }
}

/// `1.3.6.1.2.1.2.2.1`
pub open spec fn if_table() -> Seq<u32> {
    seq![1u32, 3u32, 6u32, 1u32, 2u32, 1u32, 2u32, 2u32, 1u32]
}

/// `1.3.6.1.2.1.31.1.1.1`
pub open spec fn if_x_table() -> Seq<u32> {
    seq![1u32, 3u32, 6u32, 1u32, 2u32, 1u32, 31u32, 1u32, 1u32, 1u32]
}

/// The first half of an interface's ifTable row: what it is.
pub open spec fn if_row_identity(index: u32, iface: InterfaceState) -> Seq<EntryView> {
    let t = if_table();
    seq![
        cell(t, 1, index, ValueView::Integer(index as i32)),
        cell(t, 2, index, octets_view(iface.name@)),
        cell(
            t,
            3,
            index,
            ValueView::Integer(
                if iface.kind@ == "ethernet"@ {
                    6i32
                } else {
                    53i32
                },
            ),
        ),
        cell(t, 4, index, ValueView::Integer(iface.mtu as i32)),
        cell(t, 5, index, ValueView::Gauge32(if_speed(iface.speed_mbps))),
        cell(t, 6, index, phys_view(iface.mac@)),
        cell(
            t,
            7,
            index,
            ValueView::Integer(
                if iface.admin_state != AdminState::Down {
                    1i32
                } else {
                    2i32
                },
            ),
        ),
        cell(
            t,
            8,
            index,
            ValueView::Integer(
                if iface.oper_status == OperStatus::Up {
                    1i32
                } else {
                    2i32
                },
            ),
        ),
        cell(t, 9, index, ValueView::TimeTicks(ticks(iface.seconds_since_change))),
    ]
}

/// The second half of an interface's ifTable row: what it counted.
pub open spec fn if_row_counters(index: u32, c: PortCounters) -> Seq<EntryView> {
    let t = if_table();
    seq![
        cell(t, 10, index, low32(c.in_octets as int)),
        cell(t, 11, index, low32(c.in_ucast_pkts as int)),
        cell(t, 12, index, low32(c.in_mcast_pkts + c.in_bcast_pkts)),
        cell(t, 13, index, low32(c.in_discards as int)),
        cell(t, 14, index, low32(c.in_errors as int)),
        cell(t, 16, index, low32(c.out_octets as int)),
        cell(t, 17, index, low32(c.out_ucast_pkts as int)),
        cell(t, 18, index, low32(c.out_mcast_pkts + c.out_bcast_pkts)),
        cell(t, 19, index, low32(c.out_discards as int)),
        cell(t, 20, index, low32(c.out_errors as int)),
    ]
}

/// The counters of an interface's ifXTable row.
pub open spec fn if_x_row_counters(
    index: u32,
    name: Seq<char>,
    c: PortCounters,
) -> Seq<EntryView> {
    let t = if_x_table();
    seq![
        cell(t, 1, index, octets_view(name)),
        cell(t, 2, index, low32(c.in_mcast_pkts as int)),
        cell(t, 3, index, low32(c.in_bcast_pkts as int)),
        cell(t, 4, index, low32(c.out_mcast_pkts as int)),
        cell(t, 5, index, low32(c.out_bcast_pkts as int)),
        cell(t, 6, index, ValueView::Counter64(c.in_octets)),
        cell(t, 7, index, ValueView::Counter64(c.in_ucast_pkts)),
        cell(t, 8, index, ValueView::Counter64(c.in_mcast_pkts)),
        cell(t, 9, index, ValueView::Counter64(c.in_bcast_pkts)),
        cell(t, 10, index, ValueView::Counter64(c.out_octets)),
        cell(t, 11, index, ValueView::Counter64(c.out_ucast_pkts)),
        cell(t, 12, index, ValueView::Counter64(c.out_mcast_pkts)),
        cell(t, 13, index, ValueView::Counter64(c.out_bcast_pkts)),
    ]
}

/// The rest of an interface's ifXTable row: link traps disabled(2), the
/// rate in Mb/s, promiscuous mode false(2), connector present true(1), the
/// description, and when the counters were last cleared.
pub open spec fn if_x_row_rest(index: u32, iface: InterfaceState) -> Seq<EntryView> {
    let t = if_x_table();
    seq![
        cell(t, 14, index, ValueView::Integer(2i32)),
        cell(
            t,
            15,
            index,
            ValueView::Gauge32(
                if iface.speed_mbps <= u32::MAX {
                    iface.speed_mbps as u32
                } else {
                    u32::MAX
                },
            ),
        ),
        cell(t, 16, index, ValueView::Integer(2i32)),
        cell(t, 17, index, ValueView::Integer(1i32)),
        cell(t, 18, index, octets_view(iface.description@)),
        cell(t, 19, index, ValueView::TimeTicks(ticks(iface.seconds_since_clear))),
    ]
}

/// Everything the MIB says of one interface.
pub open spec fn if_entries(index: u32, iface: InterfaceState) -> Seq<EntryView> {
    if_row_identity(index, iface) + if_row_counters(index, counters_of(iface))
        + if_x_row_counters(index, iface.name@, counters_of(iface)) + if_x_row_rest(index, iface)
}

/// The interfaces with an ifIndex, in order of it; interfaces of one
/// ifIndex keep their order.
pub open spec fn rows_of(interfaces: Seq<InterfaceState>, n: int) -> Seq<(u32, int)>
    decreases n,
{
    if n <= 0 {
        Seq::empty()
    } else {
        let iface = interfaces[n - 1];
        match index_of(iface.kind@, iface.name@, iface.index) {
            Some(index) => insert_row(rows_of(interfaces, n - 1), (index as u32, n - 1)),
            None => rows_of(interfaces, n - 1),
        }
    }
}

/// A row put behind those whose ifIndex is not larger.
pub open spec fn insert_row(rows: Seq<(u32, int)>, row: (u32, int)) -> Seq<(u32, int)>
    decreases rows.len(),
{
    if rows.len() == 0 || rows.last().0 <= row.0 {
        rows.push(row)
    } else {
        insert_row(rows.drop_last(), row).push(rows.last())
    }
}

/// The entries of the first `n` rows.
pub open spec fn row_entries(
    interfaces: Seq<InterfaceState>,
    rows: Seq<(u32, int)>,
    n: int,
) -> Seq<EntryView>
    decreases n,
{
    if n <= 0 {
        Seq::empty()
    } else {
        row_entries(interfaces, rows, n - 1) + if_entries(
            rows[n - 1].0,
            interfaces[rows[n - 1].1],
        )
    }
}

/// ifNumber.0: how many interfaces have an ifIndex.
pub open spec fn if_number(count: nat) -> EntryView {
    EntryView {
        oid: seq![1u32, 3u32, 6u32, 1u32, 2u32, 1u32, 2u32, 1u32, 0u32],
        value: ValueView::Integer(
            if count <= i32::MAX {
                count as i32
            } else {
                i32::MAX
            },
        ),
    }
}

/// An entry put behind those whose OID is not larger.
pub open spec fn insert_entry(s: Seq<EntryView>, e: EntryView) -> Seq<EntryView>
    decreases s.len(),
{
    if s.len() == 0 || !oid_before(e.oid, s.last().oid) {
        s.push(e)
    } else {
        insert_entry(s.drop_last(), e).push(s.last())
    }
}

/// Entries in order of their OIDs; entries of one OID keep their order.
pub open spec fn by_oid(s: Seq<EntryView>) -> Seq<EntryView>
    decreases s.len(),
{
    if s.len() == 0 {
        s
    } else {
        insert_entry(by_oid(s.drop_last()), s.last())
    }
}

/// The MIB of an interface snapshot.
pub open spec fn mib_of(interfaces: Seq<InterfaceState>) -> Seq<EntryView> {
    let rows = rows_of(interfaces, interfaces.len() as int);
    by_oid(seq![if_number(rows.len())] + row_entries(interfaces, rows, rows.len() as int))
}

/// The numbers that the MIB adds up fit their types.
pub open spec fn snapshot_fits(interfaces: Seq<InterfaceState>) -> bool {
    forall|i: int|
        0 <= i < interfaces.len() ==> interface_fits(#[trigger] interfaces[i])
}

pub open spec fn interface_fits(iface: InterfaceState) -> bool {
    &&& counters_of(iface).in_mcast_pkts + counters_of(iface).in_bcast_pkts <= u64::MAX
    &&& counters_of(iface).out_mcast_pkts + counters_of(iface).out_bcast_pkts <= u64::MAX
}

/// Do the numbers that the MIB adds up fit their types?
pub fn in_range(interfaces: &Vec<InterfaceState>) -> (r: bool)
    ensures
        r == snapshot_fits(interfaces@),
{
    let mut i: usize = 0;
    while i < interfaces.len()
        invariant
            i <= interfaces@.len(),
            forall|j: int| 0 <= j < i ==> interface_fits(#[trigger] interfaces@[j]),
        decreases interfaces@.len() - i,
    {
        let iface = &interfaces[i];
        let sums: bool = match &iface.counters {
            Some(c) => c.in_mcast_pkts <= u64::MAX - c.in_bcast_pkts && c.out_mcast_pkts
                <= u64::MAX - c.out_bcast_pkts,
            None => true,
        };
        if !sums {
            assert(!interface_fits(interfaces@[i as int]));
            return false;
        }
        i = i + 1;
    }
    true
}

/// The entries of a MIB as mathematical values.
pub open spec fn mib_view(mib: Seq<(Oid, Value)>) -> Seq<EntryView> {
    Seq::new(mib.len(), |i: int| entry_view(mib[i]))
}

pub open spec fn entry_view(e: (Oid, Value)) -> EntryView {
    EntryView { oid: e.0@, value: e.1.deep_view() }
}

/// The MIB is in order of its OIDs.
pub open spec fn in_order(s: Seq<EntryView>) -> bool {
    forall|i: int, j: int| 0 <= i < j < s.len() ==> !oid_before(s[j].oid, s[i].oid)
}

proof fn lemma_insert_entry(s: Seq<EntryView>, e: EntryView)
    requires
        in_order(s),
    ensures
        insert_entry(s, e).len() == s.len() + 1,
        insert_entry(s, e).to_multiset() == s.to_multiset().insert(e),
        in_order(insert_entry(s, e)),
        forall|i: int|
            0 <= i < s.len() + 1 ==> (#[trigger] insert_entry(s, e)[i]) == e || s.contains(
                insert_entry(s, e)[i],
            ),
    decreases s.len(),
{
    broadcast use vstd::seq_lib::group_to_multiset_ensures;

    let r = insert_entry(s, e);
    if s.len() == 0 || !oid_before(e.oid, s.last().oid) {
        assert forall|i: int, j: int| 0 <= i < j < r.len() implies !oid_before(
            r[j].oid,
            r[i].oid,
        ) by {
            if j == s.len() && oid_before(e.oid, s[i].oid) {
                if i < s.len() - 1 {
                    assert(!oid_before(s[s.len() - 1].oid, s[i].oid));
                    lemma_oid_total(s[s.len() - 1].oid, s[i].oid);
                    if s[s.len() - 1].oid != s[i].oid {
                        lemma_oid_transitive(e.oid, s[i].oid, s[s.len() - 1].oid);
                    }
                }
            }
        }
        assert forall|i: int| 0 <= i < s.len() + 1 implies (#[trigger] r[i]) == e || s.contains(
            r[i],
        ) by {
            if i < s.len() {
                assert(s[i] == r[i]);
            }
        }
    } else {
        let front = s.drop_last();
        lemma_insert_entry(front, e);
        let t = insert_entry(front, e);
        assert(s =~= front.push(s.last()));
        assert forall|i: int| 0 <= i < s.len() + 1 implies (#[trigger] r[i]) == e || s.contains(
            r[i],
        ) by {
            if i < s.len() {
                assert(r[i] == t[i]);
                if t[i] != e {
                    let k = choose|k: int| 0 <= k < front.len() && front[k] == t[i];
                    assert(s[k] == r[i]);
                }
            } else {
                assert(s[s.len() - 1] == r[i]);
            }
        }
        assert forall|i: int, j: int| 0 <= i < j < r.len() implies !oid_before(
            r[j].oid,
            r[i].oid,
        ) by {
            if j == s.len() {
                assert(r[i] == t[i]);
                if t[i] == e {
                    if oid_before(s.last().oid, e.oid) {
                        lemma_oid_transitive(e.oid, s.last().oid, e.oid);
                        lemma_oid_irreflexive(e.oid);
                    }
                } else {
                    let k = choose|k: int| 0 <= k < front.len() && front[k] == t[i];
                    assert(!oid_before(s[s.len() - 1].oid, s[k].oid));
                }
            } else {
                assert(r[i] == t[i] && r[j] == t[j]);
            }
        }
        assert(s.to_multiset() == front.to_multiset().insert(s.last()));
        assert(r.to_multiset() =~= t.to_multiset().insert(s.last()));
        assert(r.to_multiset() =~= s.to_multiset().insert(e));
    }
}

/// Sorting keeps every entry and puts the OIDs in order.
pub proof fn lemma_by_oid(s: Seq<EntryView>)
    ensures
        by_oid(s).len() == s.len(),
        by_oid(s).to_multiset() == s.to_multiset(),
        in_order(by_oid(s)),
    decreases s.len(),
{
    broadcast use vstd::seq_lib::group_to_multiset_ensures;

    if s.len() > 0 {
        lemma_by_oid(s.drop_last());
        lemma_insert_entry(by_oid(s.drop_last()), s.last());
        assert(s =~= s.drop_last().push(s.last()));
        assert(s.to_multiset() == s.drop_last().to_multiset().insert(s.last()));
    }
}

/// The MIB is in order of its OIDs, whatever the interfaces are.
pub proof fn lemma_mib_in_order(interfaces: Seq<InterfaceState>)
    ensures
        in_order(mib_of(interfaces)),
{
    let rows = rows_of(interfaces, interfaces.len() as int);
    lemma_by_oid(seq![if_number(rows.len())] + row_entries(interfaces, rows, rows.len() as int));
}

proof fn lemma_by_oid_push(s: Seq<EntryView>, e: EntryView)
    ensures
        by_oid(s.push(e)) == insert_entry(by_oid(s), e),
{
    assert(s.push(e).drop_last() =~= s);
}

fn add_entry(mib: &mut Vec<(Oid, Value)>, oid: Oid, value: Value)
    ensures
        mib_view(final(mib)@) == insert_entry(
            mib_view(old(mib)@),
            EntryView { oid: oid@, value: value.deep_view() },
        ),
    decreases old(mib)@.len(),
{
    let ghost before = mib_view(mib@);
    let ghost e = EntryView { oid: oid@, value: value.deep_view() };
    let len: usize = mib.len();
    if len == 0 || !is_oid_before(&oid, &mib[len - 1].0) {
        if len > 0 {
            assert(before.last() == entry_view(mib@.last()));
        }
        mib.push((oid, value));
        assert(mib_view(mib@) =~= before.push(e));
    } else {
        assert(before.last() == entry_view(mib@.last()));
        match mib.pop() {
            Some(last) => {
                assert(mib_view(mib@) =~= before.drop_last());
                add_entry(mib, oid, value);
                let ghost mid = mib_view(mib@);
                mib.push(last);
                assert(mib_view(mib@) =~= mid.push(entry_view(last)));
            },
            None => {},
        }
    }
}

/// Add one cell of a table; `raw` is what was added so far, in order.
fn add_cell(
    mib: &mut Vec<(Oid, Value)>,
    Ghost(raw): Ghost<Seq<EntryView>>,
    table: &[u32],
    col: u32,
    index: u32,
    value: Value,
)
    requires
        mib_view(old(mib)@) == by_oid(raw),
    ensures
        mib_view(final(mib)@) == by_oid(raw.push(cell(table@, col, index, value.deep_view()))),
{
    let mut oid = copy_oid(table);
    oid.push(col);
    oid.push(index);
    proof {
        lemma_by_oid_push(raw, cell(table@, col, index, value.deep_view()));
    }
    add_entry(mib, oid, value);
}

fn add_identity(
    mib: &mut Vec<(Oid, Value)>,
    Ghost(raw): Ghost<Seq<EntryView>>,
    index: u32,
    iface: &InterfaceState,
)
    requires
        mib_view(old(mib)@) == by_oid(raw),
    ensures
        mib_view(final(mib)@) == by_oid(raw + if_row_identity(index, *iface)),
{
    let table: [u32; 9] = [1, 3, 6, 1, 2, 1, 2, 2, 1];
    let t: &[u32] = table.as_slice();
    assert(t@ =~= if_table());
    let ghost row = if_row_identity(index, *iface);
    let if_type: i32 = if same_text(iface.kind.as_str(), "ethernet") {
        6
    } else {
        53
    };
    let speed: u32 = if iface.speed_mbps <= 4294 {
        (iface.speed_mbps * 1_000_000) as u32
    } else {
        u32::MAX
    };
    let admin: i32 = if iface.admin_state != AdminState::Down {
        1
    } else {
        2
    };
    let oper: i32 = if iface.oper_status == OperStatus::Up {
        1
    } else {
        2
    };
    assert(raw + row.take(0) =~= raw);
    add_cell(mib, Ghost(raw), t, 1, index, Value::Integer(index as i32));
    assert(raw + row.take(1) =~= raw.push(row[0]));
    add_cell(mib, Ghost(raw + row.take(1)), t, 2, index, octets(iface.name.as_str()));
    assert(raw + row.take(2) =~= (raw + row.take(1)).push(row[1]));
    add_cell(mib, Ghost(raw + row.take(2)), t, 3, index, Value::Integer(if_type));
    assert(raw + row.take(3) =~= (raw + row.take(2)).push(row[2]));
    add_cell(mib, Ghost(raw + row.take(3)), t, 4, index, Value::Integer(iface.mtu as i32));
    assert(raw + row.take(4) =~= (raw + row.take(3)).push(row[3]));
    add_cell(mib, Ghost(raw + row.take(4)), t, 5, index, Value::Gauge32(speed));
    assert(raw + row.take(5) =~= (raw + row.take(4)).push(row[4]));
    add_cell(mib, Ghost(raw + row.take(5)), t, 6, index, phys_address(iface.mac.as_str()));
    assert(raw + row.take(6) =~= (raw + row.take(5)).push(row[5]));
    add_cell(mib, Ghost(raw + row.take(6)), t, 7, index, Value::Integer(admin));
    assert(raw + row.take(7) =~= (raw + row.take(6)).push(row[6]));
    add_cell(mib, Ghost(raw + row.take(7)), t, 8, index, Value::Integer(oper));
    assert(raw + row.take(8) =~= (raw + row.take(7)).push(row[7]));
    add_cell(
        mib,
        Ghost(raw + row.take(8)),
        t,
        9,
        index,
        Value::TimeTicks(ticks_of(iface.seconds_since_change)),
    );
    assert(raw + row =~= (raw + row.take(8)).push(row[8]));
}

fn add_counters(
    mib: &mut Vec<(Oid, Value)>,
    Ghost(raw): Ghost<Seq<EntryView>>,
    index: u32,
    c: PortCounters,
)
    requires
        mib_view(old(mib)@) == by_oid(raw),
        c.in_mcast_pkts + c.in_bcast_pkts <= u64::MAX,
        c.out_mcast_pkts + c.out_bcast_pkts <= u64::MAX,
    ensures
        mib_view(final(mib)@) == by_oid(raw + if_row_counters(index, c)),
{
    let table: [u32; 9] = [1, 3, 6, 1, 2, 1, 2, 2, 1];
    let t: &[u32] = table.as_slice();
    assert(t@ =~= if_table());
    let ghost row = if_row_counters(index, c);
    assert(raw + row.take(0) =~= raw);
    add_cell(mib, Ghost(raw), t, 10, index, counter32(c.in_octets));
    assert(raw + row.take(1) =~= raw.push(row[0]));
    add_cell(mib, Ghost(raw + row.take(1)), t, 11, index, counter32(c.in_ucast_pkts));
    assert(raw + row.take(2) =~= (raw + row.take(1)).push(row[1]));
    add_cell(
        mib,
        Ghost(raw + row.take(2)),
        t,
        12,
        index,
        counter32(c.in_mcast_pkts + c.in_bcast_pkts),
    );
    assert(raw + row.take(3) =~= (raw + row.take(2)).push(row[2]));
    add_cell(mib, Ghost(raw + row.take(3)), t, 13, index, counter32(c.in_discards));
    assert(raw + row.take(4) =~= (raw + row.take(3)).push(row[3]));
    add_cell(mib, Ghost(raw + row.take(4)), t, 14, index, counter32(c.in_errors));
    assert(raw + row.take(5) =~= (raw + row.take(4)).push(row[4]));
    add_cell(mib, Ghost(raw + row.take(5)), t, 16, index, counter32(c.out_octets));
    assert(raw + row.take(6) =~= (raw + row.take(5)).push(row[5]));
    add_cell(mib, Ghost(raw + row.take(6)), t, 17, index, counter32(c.out_ucast_pkts));
    assert(raw + row.take(7) =~= (raw + row.take(6)).push(row[6]));
    add_cell(
        mib,
        Ghost(raw + row.take(7)),
        t,
        18,
        index,
        counter32(c.out_mcast_pkts + c.out_bcast_pkts),
    );
    assert(raw + row.take(8) =~= (raw + row.take(7)).push(row[7]));
    add_cell(mib, Ghost(raw + row.take(8)), t, 19, index, counter32(c.out_discards));
    assert(raw + row.take(9) =~= (raw + row.take(8)).push(row[8]));
    add_cell(mib, Ghost(raw + row.take(9)), t, 20, index, counter32(c.out_errors));
    assert(raw + row =~= (raw + row.take(9)).push(row[9]));
}

fn add_x_counters(
    mib: &mut Vec<(Oid, Value)>,
    Ghost(raw): Ghost<Seq<EntryView>>,
    index: u32,
    name: &str,
    c: PortCounters,
)
    requires
        mib_view(old(mib)@) == by_oid(raw),
    ensures
        mib_view(final(mib)@) == by_oid(raw + if_x_row_counters(index, name@, c)),
{
    let table: [u32; 10] = [1, 3, 6, 1, 2, 1, 31, 1, 1, 1];
    let t: &[u32] = table.as_slice();
    assert(t@ =~= if_x_table());
    let ghost row = if_x_row_counters(index, name@, c);
    assert(raw + row.take(0) =~= raw);
    add_cell(mib, Ghost(raw), t, 1, index, octets(name));
    assert(raw + row.take(1) =~= raw.push(row[0]));
    add_cell(mib, Ghost(raw + row.take(1)), t, 2, index, counter32(c.in_mcast_pkts));
    assert(raw + row.take(2) =~= (raw + row.take(1)).push(row[1]));
    add_cell(mib, Ghost(raw + row.take(2)), t, 3, index, counter32(c.in_bcast_pkts));
    assert(raw + row.take(3) =~= (raw + row.take(2)).push(row[2]));
    add_cell(mib, Ghost(raw + row.take(3)), t, 4, index, counter32(c.out_mcast_pkts));
    assert(raw + row.take(4) =~= (raw + row.take(3)).push(row[3]));
    add_cell(mib, Ghost(raw + row.take(4)), t, 5, index, counter32(c.out_bcast_pkts));
    assert(raw + row.take(5) =~= (raw + row.take(4)).push(row[4]));
    add_cell(mib, Ghost(raw + row.take(5)), t, 6, index, Value::Counter64(c.in_octets));
    assert(raw + row.take(6) =~= (raw + row.take(5)).push(row[5]));
    add_cell(mib, Ghost(raw + row.take(6)), t, 7, index, Value::Counter64(c.in_ucast_pkts));
    assert(raw + row.take(7) =~= (raw + row.take(6)).push(row[6]));
    add_cell(mib, Ghost(raw + row.take(7)), t, 8, index, Value::Counter64(c.in_mcast_pkts));
    assert(raw + row.take(8) =~= (raw + row.take(7)).push(row[7]));
    add_cell(mib, Ghost(raw + row.take(8)), t, 9, index, Value::Counter64(c.in_bcast_pkts));
    assert(raw + row.take(9) =~= (raw + row.take(8)).push(row[8]));
    add_cell(mib, Ghost(raw + row.take(9)), t, 10, index, Value::Counter64(c.out_octets));
    assert(raw + row.take(10) =~= (raw + row.take(9)).push(row[9]));
    add_cell(mib, Ghost(raw + row.take(10)), t, 11, index, Value::Counter64(c.out_ucast_pkts));
    assert(raw + row.take(11) =~= (raw + row.take(10)).push(row[10]));
    add_cell(mib, Ghost(raw + row.take(11)), t, 12, index, Value::Counter64(c.out_mcast_pkts));
    assert(raw + row.take(12) =~= (raw + row.take(11)).push(row[11]));
    add_cell(mib, Ghost(raw + row.take(12)), t, 13, index, Value::Counter64(c.out_bcast_pkts));
    assert(raw + row =~= (raw + row.take(12)).push(row[12]));
}

fn add_x_rest(
    mib: &mut Vec<(Oid, Value)>,
    Ghost(raw): Ghost<Seq<EntryView>>,
    index: u32,
    iface: &InterfaceState,
)
    requires
        mib_view(old(mib)@) == by_oid(raw),
    ensures
        mib_view(final(mib)@) == by_oid(raw + if_x_row_rest(index, *iface)),
{
    let table: [u32; 10] = [1, 3, 6, 1, 2, 1, 31, 1, 1, 1];
    let t: &[u32] = table.as_slice();
    assert(t@ =~= if_x_table());
    let ghost row = if_x_row_rest(index, *iface);
    let rate: u32 = if iface.speed_mbps <= u32::MAX as u64 {
        iface.speed_mbps as u32
    } else {
        u32::MAX
    };
    assert(raw + row.take(0) =~= raw);
    add_cell(mib, Ghost(raw), t, 14, index, Value::Integer(2));
    assert(raw + row.take(1) =~= raw.push(row[0]));
    add_cell(mib, Ghost(raw + row.take(1)), t, 15, index, Value::Gauge32(rate));
    assert(raw + row.take(2) =~= (raw + row.take(1)).push(row[1]));
    add_cell(mib, Ghost(raw + row.take(2)), t, 16, index, Value::Integer(2));
    assert(raw + row.take(3) =~= (raw + row.take(2)).push(row[2]));
    add_cell(mib, Ghost(raw + row.take(3)), t, 17, index, Value::Integer(1));
    assert(raw + row.take(4) =~= (raw + row.take(3)).push(row[3]));
    add_cell(mib, Ghost(raw + row.take(4)), t, 18, index, octets(iface.description.as_str()));
    assert(raw + row.take(5) =~= (raw + row.take(4)).push(row[4]));
    add_cell(
        mib,
        Ghost(raw + row.take(5)),
        t,
        19,
        index,
        Value::TimeTicks(ticks_of(iface.seconds_since_clear)),
    );
    assert(raw + row =~= (raw + row.take(5)).push(row[5]));
}

/// The rows, as mathematical values.
pub open spec fn rows_view(rows: Seq<(u32, usize)>) -> Seq<(u32, int)> {
    Seq::new(rows.len(), |i: int| (rows[i].0, rows[i].1 as int))
}

fn add_row(rows: &mut Vec<(u32, usize)>, index: u32, at: usize)
    ensures
        rows_view(final(rows)@) == insert_row(rows_view(old(rows)@), (index, at as int)),
    decreases old(rows)@.len(),
{
    let ghost before = rows_view(rows@);
    let len: usize = rows.len();
    if len == 0 || rows[len - 1].0 <= index {
        rows.push((index, at));
        assert(rows_view(rows@) =~= before.push((index, at as int)));
    } else {
        match rows.pop() {
            Some(last) => {
                assert(rows_view(rows@) =~= before.drop_last());
                add_row(rows, index, at);
                let ghost mid = rows_view(rows@);
                rows.push(last);
                assert(rows_view(rows@) =~= mid.push((last.0, last.1 as int)));
            },
            None => {},
        }
    }
}

proof fn lemma_rows(interfaces: Seq<InterfaceState>, n: int)
    requires
        0 <= n <= interfaces.len(),
    ensures
        forall|i: int|
            0 <= i < rows_of(interfaces, n).len() ==> 0 <= (#[trigger] rows_of(
                interfaces,
                n,
            )[i]).1 < n,
    decreases n,
{
    if n > 0 {
        lemma_rows(interfaces, n - 1);
        let iface = interfaces[n - 1];
        if let Some(index) = index_of(iface.kind@, iface.name@, iface.index) {
            lemma_insert_row(rows_of(interfaces, n - 1), (index as u32, n - 1), n);
        }
    }
}

proof fn lemma_insert_row(rows: Seq<(u32, int)>, row: (u32, int), n: int)
    requires
        0 <= row.1 < n,
        forall|i: int| 0 <= i < rows.len() ==> 0 <= (#[trigger] rows[i]).1 < n,
    ensures
        forall|i: int|
            0 <= i < insert_row(rows, row).len() ==> 0 <= (#[trigger] insert_row(rows, row)[i]).1
                < n,
    decreases rows.len(),
{
    if rows.len() == 0 || rows.last().0 <= row.0 {
    } else {
        lemma_insert_row(rows.drop_last(), row, n);
        let t = insert_row(rows.drop_last(), row);
        let r = insert_row(rows, row);
        assert forall|i: int| 0 <= i < r.len() implies 0 <= (#[trigger] r[i]).1 < n by {
            if i < t.len() {
                assert(r[i] == t[i]);
            } else {
                assert(r[i] == rows[rows.len() - 1]);
            }
        }
    }
}

/// Build the sorted MIB from one syncd interface snapshot.
pub fn build_mib(interfaces: &Vec<InterfaceState>) -> (mib: Vec<(Oid, Value)>)
    requires
        snapshot_fits(interfaces@),
    ensures
        mib_view(mib@) == mib_of(interfaces@),
{
    let ghost all = interfaces@;
    let mut rows: Vec<(u32, usize)> = Vec::new();
    let mut i: usize = 0;
    assert(rows_view(rows@) =~= rows_of(all, 0));
    while i < interfaces.len()
        invariant
            i <= interfaces@.len(),
            all == interfaces@,
            snapshot_fits(all),
            rows_view(rows@) == rows_of(all, i as int),
        decreases interfaces@.len() - i,
    {
        let iface = &interfaces[i];
        assert(interface_fits(all[i as int]));
        match if_index(iface.kind.as_str(), iface.name.as_str(), iface.index) {
            Some(index) => add_row(&mut rows, index, i),
            None => {},
        }
        i = i + 1;
    }
    let ghost sorted = rows_of(all, all.len() as int);
    proof {
        lemma_rows(all, all.len() as int);
    }
    assert(sorted.len() == rows@.len());
    let mut mib: Vec<(Oid, Value)> = Vec::new();
    let count: i32 = if rows.len() <= i32::MAX as usize {
        rows.len() as i32
    } else {
        i32::MAX
    };
    let number: [u32; 9] = [1, 3, 6, 1, 2, 1, 2, 1, 0];
    let number_oid = copy_oid(number.as_slice());
    let ghost head = if_number(rows@.len());
    assert(number_oid@ =~= head.oid);
    assert(mib_view(mib@) =~= by_oid(Seq::<EntryView>::empty()));
    proof {
        lemma_by_oid_push(Seq::<EntryView>::empty(), head);
    }
    add_entry(&mut mib, number_oid, Value::Integer(count));
    let ghost mut raw = seq![head];
    assert(Seq::<EntryView>::empty().push(head) =~= raw);
    assert(raw =~= seq![head] + row_entries(all, sorted, 0));
    let mut k: usize = 0;
    while k < rows.len()
        invariant
            k <= rows@.len(),
            all == interfaces@,
            snapshot_fits(all),
            sorted == rows_view(rows@),
            forall|j: int| 0 <= j < sorted.len() ==> 0 <= (#[trigger] sorted[j]).1 < all.len(),
            raw == seq![head] + row_entries(all, sorted, k as int),
            mib_view(mib@) == by_oid(raw),
        decreases rows@.len() - k,
    {
        let index: u32 = rows[k].0;
        let at: usize = rows[k].1;
        assert(sorted[k as int] == (index, at as int));
        let iface = &interfaces[at];
        assert(interface_fits(all[at as int]));
        let counters = match iface.counters {
            Some(c) => c,
            None => PortCounters::default(),
        };
        add_identity(&mut mib, Ghost(raw), index, iface);
        let ghost r1 = raw + if_row_identity(index, *iface);
        add_counters(&mut mib, Ghost(r1), index, counters);
        let ghost r2 = r1 + if_row_counters(index, counters);
        add_x_counters(&mut mib, Ghost(r2), index, iface.name.as_str(), counters);
        let ghost r3 = r2 + if_x_row_counters(index, iface.name@, counters);
        add_x_rest(&mut mib, Ghost(r3), index, iface);
        proof {
            raw = r3 + if_x_row_rest(index, *iface);
            assert(raw =~= seq![head] + row_entries(all, sorted, k + 1));
        }
        k = k + 1;
    }
    mib
}

// ------------------------------------------------------------- retrieval

/// The first entry that a test accepts.
pub open spec fn first_match(mib: Seq<EntryView>, test: spec_fn(EntryView) -> bool) -> Option<
    EntryView,
>
    decreases mib.len(),
{
    if mib.len() == 0 {
        None
    } else if test(mib[0]) {
        Some(mib[0])
    } else {
        first_match(mib.skip(1), test)
    }
}

/// The test for one OID.
pub open spec fn at_oid(oid: Seq<u32>) -> spec_fn(EntryView) -> bool {
    |e: EntryView| e.oid == oid
}

/// The test for the OIDs that a search range reaches: those behind its
/// start, and the start itself where it is inclusive.
pub open spec fn reached_by(range: RangeView) -> spec_fn(EntryView) -> bool {
    |e: EntryView|
        if range.inclusive {
            !oid_before(e.oid, range.start)
        } else {
            oid_before(range.start, e.oid)
        }
}

/// The next entry of a search range, bounded by its end when it names one.
pub open spec fn next_entry(mib: Seq<EntryView>, range: RangeView) -> Option<EntryView> {
    match first_match(mib, reached_by(range)) {
        None => None,
        Some(e) => if range.end.len() > 0 && !oid_before(e.oid, range.end) {
            None
        } else {
            Some(e)
        },
    }
}

/// Does `oid`'s column (everything but its last sub-id) exist in the MIB?
pub open spec fn has_column(mib: Seq<EntryView>, oid: Seq<u32>) -> bool {
    oid.len() > 1 && exists|i: int|
        0 <= i < mib.len() && oid_begins(#[trigger] mib[i].oid, oid.drop_last())
}

/// Does an OID begin with some sub-identifiers?
pub open spec fn oid_begins(oid: Seq<u32>, front: Seq<u32>) -> bool {
    oid.len() >= front.len() && oid.take(front.len() as int) == front
}

/// What a Get gives back for one OID: its value, or which of the two
/// exceptions says that there is none.
pub open spec fn get_bind(mib: Seq<EntryView>, oid: Seq<u32>) -> BindView {
    match first_match(mib, at_oid(oid)) {
        Some(e) => BindView { name: e.oid, value: e.value },
        None => BindView {
            name: oid,
            value: if has_column(mib, oid) {
                ValueView::NoSuchInstance
            } else {
                ValueView::NoSuchObject
            },
        },
    }
}

/// What a GetNext gives back for one range: the next entry, or the end of
/// the view under the name that was asked for.
pub open spec fn next_bind(mib: Seq<EntryView>, range: RangeView) -> BindView {
    match next_entry(mib, range) {
        Some(e) => BindView { name: e.oid, value: e.value },
        None => BindView { name: range.start, value: ValueView::EndOfMibView },
    }
}

/// Where a range goes on after a repetition.
pub open spec fn next_cursor(mib: Seq<EntryView>, range: RangeView) -> RangeView {
    match next_entry(mib, range) {
        Some(e) => RangeView { start: e.oid, inclusive: false, end: range.end },
        None => range,
    }
}

/// One repetition over every cursor.
pub open spec fn round_binds(mib: Seq<EntryView>, cursors: Seq<RangeView>) -> Seq<BindView> {
    Seq::new(cursors.len(), |i: int| next_bind(mib, cursors[i]))
}

pub open spec fn round_cursors(mib: Seq<EntryView>, cursors: Seq<RangeView>) -> Seq<RangeView> {
    Seq::new(cursors.len(), |i: int| next_cursor(mib, cursors[i]))
}

/// Did a repetition find anything?
pub open spec fn progressed(mib: Seq<EntryView>, cursors: Seq<RangeView>) -> bool {
    exists|i: int| 0 <= i < cursors.len() && next_entry(mib, #[trigger] cursors[i]) is Some
}

/// Up to `n` repetitions; the first that finds nothing is the last.
pub open spec fn repeat(mib: Seq<EntryView>, cursors: Seq<RangeView>, n: nat) -> Seq<BindView>
    decreases n,
{
    if n == 0 {
        Seq::empty()
    } else if progressed(mib, cursors) {
        round_binds(mib, cursors) + repeat(mib, round_cursors(mib, cursors), (n - 1) as nat)
    } else {
        round_binds(mib, cursors)
    }
}

/// The answer to a request.
pub open spec fn answer_view(
    mib: Seq<EntryView>,
    pdu_type: PduType,
    ranges: Seq<RangeView>,
    non_repeaters: u16,
    max_repetitions: u16,
) -> Seq<BindView> {
    match pdu_type {
        PduType::Get => Seq::new(ranges.len(), |i: int| get_bind(mib, ranges[i].start)),
        PduType::GetNext => Seq::new(ranges.len(), |i: int| next_bind(mib, ranges[i])),
        PduType::GetBulk => {
            let single = if non_repeaters <= ranges.len() {
                non_repeaters as int
            } else {
                ranges.len() as int
            };
            Seq::new(single as nat, |i: int| next_bind(mib, ranges[i])) + repeat(
                mib,
                ranges.skip(single),
                max_repetitions as nat,
            )
        },
        _ => Seq::empty(),
    }
}

fn find_oid(mib: &Vec<(Oid, Value)>, oid: &Oid) -> (r: Option<usize>)
    ensures
        match r {
            Some(i) => i < mib@.len() && first_match(mib_view(mib@), at_oid(oid@)) == Some(
                entry_view(mib@[i as int]),
            ),
            None => first_match(mib_view(mib@), at_oid(oid@)) is None,
        },
{
    let ghost all = mib_view(mib@);
    let ghost test = at_oid(oid@);
    let mut i: usize = 0;
    assert(all.skip(0) =~= all);
    while i < mib.len()
        invariant
            i <= mib@.len(),
            all == mib_view(mib@),
            test == at_oid(oid@),
            first_match(all, test) == first_match(all.skip(i as int), test),
        decreases mib@.len() - i,
    {
        assert(all.skip(i as int)[0] == entry_view(mib@[i as int]));
        assert(all.skip(i as int).skip(1) =~= all.skip(i + 1));
        if is_same_oid(&mib[i].0, oid) {
            return Some(i);
        }
        i = i + 1;
    }
    None
}

/// The next entry at or after `start` (at only when `inclusive`), bounded
/// by `end` when the range names one.
fn next_after(mib: &Vec<(Oid, Value)>, range: &SearchRange) -> (r: Option<usize>)
    ensures
        match r {
            Some(i) => i < mib@.len() && next_entry(mib_view(mib@), range.deep_view()) == Some(
                entry_view(mib@[i as int]),
            ),
            None => next_entry(mib_view(mib@), range.deep_view()) is None,
        },
{
    let ghost all = mib_view(mib@);
    let ghost test = reached_by(range.deep_view());
    let mut i: usize = 0;
    assert(all.skip(0) =~= all);
    while i < mib.len()
        invariant
            i <= mib@.len(),
            all == mib_view(mib@),
            test == reached_by(range.deep_view()),
            first_match(all, test) == first_match(all.skip(i as int), test),
        decreases mib@.len() - i,
    {
        assert(all.skip(i as int)[0] == entry_view(mib@[i as int]));
        assert(all.skip(i as int).skip(1) =~= all.skip(i + 1));
        let reached = if range.inclusive {
            !is_oid_before(&mib[i].0, &range.start)
        } else {
            is_oid_before(&range.start, &mib[i].0)
        };
        if reached {
            if range.end.len() > 0 && !is_oid_before(&mib[i].0, &range.end) {
                return None;
            }
            return Some(i);
        }
        i = i + 1;
    }
    None
}

fn names_a_column(mib: &Vec<(Oid, Value)>, oid: &Oid) -> (r: bool)
    ensures
        r == has_column(mib_view(mib@), oid@),
{
    if oid.len() <= 1 {
        return false;
    }
    let width: usize = oid.len() - 1;
    let ghost column = oid@.drop_last();
    let ghost all = mib_view(mib@);
    let mut i: usize = 0;
    while i < mib.len()
        invariant
            i <= mib@.len(),
            all == mib_view(mib@),
            width == oid@.len() - 1,
            oid@.len() > 1,
            column == oid@.drop_last(),
            forall|j: int| 0 <= j < i ==> !oid_begins(#[trigger] all[j].oid, column),
        decreases mib@.len() - i,
    {
        let entry = &mib[i].0;
        assert(all[i as int].oid == entry@);
        if entry.len() >= width {
            let mut k: usize = 0;
            let mut same = true;
            while k < width
                invariant
                    k <= width <= entry@.len(),
                    width == oid@.len() - 1,
                    column == oid@.drop_last(),
                    same == (forall|j: int| 0 <= j < k ==> entry@[j] == oid@[j]),
                decreases width - k,
            {
                if entry[k] != oid[k] {
                    same = false;
                }
                k = k + 1;
            }
            if same {
                assert(entry@.take(column.len() as int) =~= column);
                assert(oid_begins(all[i as int].oid, column));
                return true;
            }
            assert(!oid_begins(all[i as int].oid, column)) by {
                let j = choose|j: int| 0 <= j < k && entry@[j] != oid@[j];
                if entry@.take(column.len() as int) == column {
                    assert(entry@.take(column.len() as int)[j] == column[j]);
                }
            }
        }
        i = i + 1;
    }
    false
}

fn entry_bind(mib: &Vec<(Oid, Value)>, i: usize) -> (r: VarBind)
    requires
        i < mib@.len(),
    ensures
        r.deep_view() == (BindView {
            name: entry_view(mib@[i as int]).oid,
            value: entry_view(mib@[i as int]).value,
        }),
{
    VarBind { name: copy_oid(mib[i].0.as_slice()), value: mib[i].1.copy() }
}

fn bind_or_end(mib: &Vec<(Oid, Value)>, range: &SearchRange) -> (r: VarBind)
    ensures
        r.deep_view() == next_bind(mib_view(mib@), range.deep_view()),
{
    match next_after(mib, range) {
        Some(i) => entry_bind(mib, i),
        None => VarBind { name: copy_oid(range.start.as_slice()), value: Value::EndOfMibView },
    }
}

fn answer_get(mib: &Vec<(Oid, Value)>, ranges: &Vec<SearchRange>) -> (binds: Vec<VarBind>)
    ensures
        binds.deep_view() == Seq::new(
            ranges@.len(),
            |i: int| get_bind(mib_view(mib@), ranges.deep_view()[i].start),
        ),
{
    let ghost all = mib_view(mib@);
    let mut binds: Vec<VarBind> = Vec::new();
    let mut i: usize = 0;
    while i < ranges.len()
        invariant
            i <= ranges@.len(),
            all == mib_view(mib@),
            binds@.len() == i,
            forall|j: int|
                0 <= j < i ==> (#[trigger] binds@[j]).deep_view() == get_bind(
                    all,
                    ranges@[j].start@,
                ),
        decreases ranges@.len() - i,
    {
        let oid = &ranges[i].start;
        match find_oid(mib, oid) {
            Some(k) => binds.push(entry_bind(mib, k)),
            None => {
                let value = if names_a_column(mib, oid) {
                    Value::NoSuchInstance
                } else {
                    Value::NoSuchObject
                };
                binds.push(VarBind { name: copy_oid(oid.as_slice()), value });
            },
        }
        i = i + 1;
    }
    assert(binds.deep_view() =~= Seq::new(
        ranges@.len(),
        |i: int| get_bind(all, ranges.deep_view()[i].start),
    ));
    binds
}

fn answer_next(mib: &Vec<(Oid, Value)>, ranges: &Vec<SearchRange>, n: usize) -> (binds: Vec<
    VarBind,
>)
    requires
        n <= ranges@.len(),
    ensures
        binds.deep_view() == Seq::new(
            n as nat,
            |i: int| next_bind(mib_view(mib@), ranges.deep_view()[i]),
        ),
{
    let ghost all = mib_view(mib@);
    let mut binds: Vec<VarBind> = Vec::new();
    let mut i: usize = 0;
    while i < n
        invariant
            i <= n <= ranges@.len(),
            all == mib_view(mib@),
            binds@.len() == i,
            forall|j: int|
                0 <= j < i ==> (#[trigger] binds@[j]).deep_view() == next_bind(
                    all,
                    ranges@[j].deep_view(),
                ),
        decreases n - i,
    {
        binds.push(bind_or_end(mib, &ranges[i]));
        i = i + 1;
    }
    assert(binds.deep_view() =~= Seq::new(
        n as nat,
        |i: int| next_bind(all, ranges.deep_view()[i]),
    ));
    binds
}

fn copy_ranges(ranges: &Vec<SearchRange>, from: usize) -> (r: Vec<SearchRange>)
    requires
        from <= ranges@.len(),
    ensures
        r.deep_view() == ranges.deep_view().skip(from as int),
{
    let mut r: Vec<SearchRange> = Vec::new();
    let mut i: usize = from;
    while i < ranges.len()
        invariant
            from <= i <= ranges@.len(),
            r@.len() == i - from,
            forall|j: int|
                0 <= j < i - from ==> (#[trigger] r@[j]).deep_view()
                    == ranges@[from + j].deep_view(),
        decreases ranges@.len() - i,
    {
        r.push(
            SearchRange {
                start: copy_oid(ranges[i].start.as_slice()),
                inclusive: ranges[i].inclusive,
                end: copy_oid(ranges[i].end.as_slice()),
            },
        );
        i = i + 1;
    }
    assert(r.deep_view() =~= ranges.deep_view().skip(from as int));
    r
}

/// One repetition: the binds are appended, the cursors move on.
fn bulk_round(
    mib: &Vec<(Oid, Value)>,
    cursors: &mut Vec<SearchRange>,
    binds: &mut Vec<VarBind>,
) -> (found: bool)
    ensures
        found == progressed(mib_view(mib@), old(cursors).deep_view()),
        final(cursors).deep_view() == round_cursors(mib_view(mib@), old(cursors).deep_view()),
        final(binds).deep_view() == old(binds).deep_view() + round_binds(
            mib_view(mib@),
            old(cursors).deep_view(),
        ),
{
    let ghost all = mib_view(mib@);
    let ghost before = cursors.deep_view();
    let ghost had = binds.deep_view();
    let ghost round = round_binds(all, before);
    let mut found = false;
    let mut i: usize = 0;
    assert(had + round.take(0) =~= had);
    while i < cursors.len()
        invariant
            i <= cursors@.len() == before.len(),
            all == mib_view(mib@),
            round == round_binds(all, before),
            found == (exists|j: int| 0 <= j < i && next_entry(all, #[trigger] before[j]) is Some),
            forall|j: int|
                0 <= j < i ==> (#[trigger] cursors@[j]).deep_view() == next_cursor(all, before[j]),
            forall|j: int|
                i <= j < before.len() ==> (#[trigger] cursors@[j]).deep_view() == before[j],
            binds.deep_view() == had + round.take(i as int),
        decreases before.len() - i,
    {
        let ghost got = binds.deep_view();
        assert(cursors@[i as int].deep_view() == before[i as int]);
        match next_after(mib, &cursors[i]) {
            Some(k) => {
                let bind = entry_bind(mib, k);
                binds.push(bind);
                assert(binds.deep_view() =~= got.push(bind.deep_view()));
                let moved = SearchRange {
                    start: copy_oid(mib[k].0.as_slice()),
                    inclusive: false,
                    end: copy_oid(cursors[i].end.as_slice()),
                };
                cursors.set(i, moved);
                found = true;
                assert(next_entry(all, before[i as int]) is Some);
            },
            None => {
                let bind = VarBind {
                    name: copy_oid(cursors[i].start.as_slice()),
                    value: Value::EndOfMibView,
                };
                binds.push(bind);
                assert(binds.deep_view() =~= got.push(bind.deep_view()));
            },
        }
        assert(had + round.take(i + 1) =~= (had + round.take(i as int)).push(round[i as int]));
        i = i + 1;
    }
    assert(round.take(i as int) =~= round);
    assert(cursors.deep_view() =~= round_cursors(all, before));
    found
}

fn answer_bulk(mib: &Vec<(Oid, Value)>, request: &Request) -> (binds: Vec<VarBind>)
    ensures
        binds.deep_view() == answer_view(
            mib_view(mib@),
            PduType::GetBulk,
            request.ranges.deep_view(),
            request.non_repeaters,
            request.max_repetitions,
        ),
{
    let ghost all = mib_view(mib@);
    let single: usize = if request.non_repeaters as usize <= request.ranges.len() {
        request.non_repeaters as usize
    } else {
        request.ranges.len()
    };
    let mut binds = answer_next(mib, &request.ranges, single);
    let ghost had = binds.deep_view();
    let mut cursors = copy_ranges(&request.ranges, single);
    let ghost start = cursors.deep_view();
    let ghost whole = had + repeat(all, start, request.max_repetitions as nat);
    assert(request.ranges.deep_view().len() == request.ranges@.len());
    let ghost answer = answer_view(
        all,
        PduType::GetBulk,
        request.ranges.deep_view(),
        request.non_repeaters,
        request.max_repetitions,
    );
    assert(whole =~= answer);
    let mut left: u16 = request.max_repetitions;
    while left > 0
        invariant
            all == mib_view(mib@),
            whole == answer,
            answer == answer_view(
                all,
                PduType::GetBulk,
                request.ranges.deep_view(),
                request.non_repeaters,
                request.max_repetitions,
            ),
            whole == binds.deep_view() + repeat(all, cursors.deep_view(), left as nat),
        decreases left,
    {
        let ghost got = binds.deep_view();
        let ghost at = cursors.deep_view();
        let found = bulk_round(mib, &mut cursors, &mut binds);
        left = left - 1;
        if !found {
            assert(whole =~= binds.deep_view());
            return binds;
        }
        assert(got + (round_binds(all, at) + repeat(all, cursors.deep_view(), left as nat))
            =~= binds.deep_view() + repeat(all, cursors.deep_view(), left as nat));
    }
    assert(whole =~= binds.deep_view());
    binds
}

/// Answer one decoded request against a MIB snapshot. Pure: this is
/// where every retrieval semantic lives.
pub fn answer(mib: &Vec<(Oid, Value)>, request: &Request) -> (binds: Vec<VarBind>)
    ensures
        binds.deep_view() == answer_view(
            mib_view(mib@),
            request.header.pdu_type,
            request.ranges.deep_view(),
            request.non_repeaters,
            request.max_repetitions,
        ),
{
    assert(request.ranges.deep_view().len() == request.ranges@.len());
    match request.header.pdu_type {
        PduType::Get => answer_get(mib, &request.ranges),
        PduType::GetNext => answer_next(mib, &request.ranges, request.ranges.len()),
        PduType::GetBulk => answer_bulk(mib, request),
        _ => {
            let none: Vec<VarBind> = Vec::new();
            assert(none.deep_view() =~= Seq::<BindView>::empty());
            none
        },
    }
}

proof fn lemma_first_match_at(mib: Seq<EntryView>, test: spec_fn(EntryView) -> bool, i: int)
    requires
        0 <= i < mib.len(),
        test(mib[i]),
        forall|j: int| 0 <= j < i ==> !test(mib[j]),
    ensures
        first_match(mib, test) == Some(mib[i]),
    decreases i,
{
    if i > 0 {
        assert(!test(mib[0]));
        assert(mib.skip(1)[i - 1] == mib[i]);
        assert forall|j: int| 0 <= j < i - 1 implies !test(mib.skip(1)[j]) by {
            assert(mib.skip(1)[j] == mib[j + 1]);
        }
        lemma_first_match_at(mib.skip(1), test, i - 1);
    }
}

proof fn lemma_first_match_none(mib: Seq<EntryView>, test: spec_fn(EntryView) -> bool)
    requires
        forall|j: int| 0 <= j < mib.len() ==> !test(mib[j]),
    ensures
        first_match(mib, test) is None,
    decreases mib.len(),
{
    if mib.len() > 0 {
        assert(!test(mib[0]));
        assert forall|j: int| 0 <= j < mib.skip(1).len() implies !test(mib.skip(1)[j]) by {
            assert(mib.skip(1)[j] == mib[j + 1]);
        }
        lemma_first_match_none(mib.skip(1), test);
    }
}

/// What a first match is: an entry of the MIB that passes the test.
proof fn lemma_first_match_passes(mib: Seq<EntryView>, test: spec_fn(EntryView) -> bool)
    ensures
        first_match(mib, test) matches Some(e) ==> test(e) && mib.contains(e),
    decreases mib.len(),
{
    if mib.len() > 0 {
        if test(mib[0]) {
            assert(mib.contains(mib[0]));
        } else {
            lemma_first_match_passes(mib.skip(1), test);
            if let Some(e) = first_match(mib.skip(1), test) {
                let k = choose|k: int| 0 <= k < mib.skip(1).len() && mib.skip(1)[k] == e;
                assert(mib[k + 1] == e);
            }
        }
    }
}

/// A walk never goes backwards: what a GetNext finds lies behind the OID
/// that was asked for, and before the end of the range.
pub proof fn lemma_next_goes_on(mib: Seq<EntryView>, range: RangeView)
    requires
        !range.inclusive,
        next_bind(mib, range).value != ValueView::EndOfMibView,
    ensures
        oid_before(range.start, next_bind(mib, range).name),
        range.end.len() > 0 ==> oid_before(next_bind(mib, range).name, range.end),
{
    lemma_first_match_passes(mib, reached_by(range));
}

/// A walk visits every OID once, in order, and ends: in a MIB without
/// doubles the entry behind each is the next one, and behind the last
/// there is none.
pub proof fn lemma_walk_visits_all(mib: Seq<EntryView>, i: int)
    requires
        0 <= i < mib.len(),
        strictly_in_order(mib),
    ensures
        ({
            let range = RangeView { start: mib[i].oid, inclusive: false, end: Seq::empty() };
            if i + 1 < mib.len() {
                next_bind(mib, range) == (BindView {
                    name: mib[i + 1].oid,
                    value: mib[i + 1].value,
                })
            } else {
                next_bind(mib, range) == (BindView {
                    name: mib[i].oid,
                    value: ValueView::EndOfMibView,
                })
            }
        }),
{
    let range = RangeView { start: mib[i].oid, inclusive: false, end: Seq::empty() };
    let test = reached_by(range);
    assert forall|j: int| 0 <= j <= i implies !test(mib[j]) by {
        lemma_oid_irreflexive(mib[i].oid);
        if j < i && oid_before(mib[i].oid, mib[j].oid) {
            lemma_oid_transitive(mib[i].oid, mib[j].oid, mib[i].oid);
        }
    }
    if i + 1 < mib.len() {
        lemma_first_match_at(mib, test, i + 1);
    } else {
        lemma_first_match_none(mib, test);
    }
}

/// A bulk gives back no more than its repetitions times its ranges.
pub proof fn lemma_bulk_bounded(mib: Seq<EntryView>, cursors: Seq<RangeView>, n: nat)
    ensures
        repeat(mib, cursors, n).len() <= n * cursors.len(),
    decreases n,
{
    if n > 0 {
        lemma_bulk_bounded(mib, round_cursors(mib, cursors), (n - 1) as nat);
        assert((n - 1) * cursors.len() + cursors.len() == n * cursors.len()) by (nonlinear_arith)
            requires
                n > 0,
        ;
        assert(n * cursors.len() >= cursors.len()) by (nonlinear_arith)
            requires
                n > 0,
        ;
    }
}

/// The walk that GetNext takes through a range: each step goes on behind the
/// name just returned, `n` steps at most, and none behind the end of the view.
pub open spec fn walk(mib: Seq<EntryView>, range: RangeView, n: nat) -> Seq<BindView>
    decreases n,
{
    if n == 0 {
        Seq::empty()
    } else {
        let bind = next_bind(mib, range);
        if bind.value == ValueView::EndOfMibView {
            seq![bind]
        } else {
            seq![bind] + walk(
                mib,
                RangeView { start: bind.name, inclusive: false, end: range.end },
                (n - 1) as nat,
            )
        }
    }
}

/// The test for the OIDs inside a search range.
pub open spec fn inside(range: RangeView) -> spec_fn(EntryView) -> bool {
    |e: EntryView|
        reached_by(range)(e) && (range.end.len() > 0 ==> oid_before(e.oid, range.end))
}

/// The MIB is in order of its OIDs and holds none twice.
pub open spec fn strictly_in_order(mib: Seq<EntryView>) -> bool {
    forall|a: int, b: int| 0 <= a < b < mib.len() ==> oid_before(mib[a].oid, mib[b].oid)
}

/// No entry of the MIB says that the MIB has ended.
pub open spec fn holds_values(mib: Seq<EntryView>) -> bool {
    forall|i: int| 0 <= i < mib.len() ==> (#[trigger] mib[i]).value != ValueView::EndOfMibView
}

/// Where the first match stands.
proof fn lemma_first_match_index(mib: Seq<EntryView>, test: spec_fn(EntryView) -> bool) -> (i: int)
    requires
        first_match(mib, test) is Some,
    ensures
        0 <= i < mib.len(),
        first_match(mib, test) == Some(mib[i]),
        test(mib[i]),
        forall|j: int| 0 <= j < i ==> !test(#[trigger] mib[j]),
    decreases mib.len(),
{
    if test(mib[0]) {
        0
    } else {
        let k = lemma_first_match_index(mib.skip(1), test);
        assert(mib.skip(1)[k] == mib[k + 1]);
        assert forall|j: int| 0 <= j < k + 1 implies !test(#[trigger] mib[j]) by {
            if j > 0 {
                assert(mib.skip(1)[j - 1] == mib[j]);
            }
        }
        k + 1
    }
}

proof fn lemma_no_match(mib: Seq<EntryView>, test: spec_fn(EntryView) -> bool)
    requires
        first_match(mib, test) is None,
    ensures
        forall|j: int| 0 <= j < mib.len() ==> !test(#[trigger] mib[j]),
    decreases mib.len(),
{
    if mib.len() > 0 {
        lemma_no_match(mib.skip(1), test);
        assert forall|j: int| 0 <= j < mib.len() implies !test(#[trigger] mib[j]) by {
            if j > 0 {
                assert(mib.skip(1)[j - 1] == mib[j]);
            }
        }
    }
}

/// What lies behind a reached OID is reached too.
proof fn lemma_reached_goes_on(range: RangeView, a: EntryView, b: EntryView)
    requires
        reached_by(range)(a),
        oid_before(a.oid, b.oid),
    ensures
        reached_by(range)(b),
{
    if range.inclusive {
        if oid_before(b.oid, range.start) {
            lemma_oid_transitive(a.oid, b.oid, range.start);
        }
    } else {
        lemma_oid_transitive(range.start, a.oid, b.oid);
    }
}

/// A step through a range leaves one OID less inside it.
proof fn lemma_step_counts(mib: Seq<EntryView>, range: RangeView, k: int)
    requires
        strictly_in_order(mib),
        0 <= k < mib.len(),
        inside(range)(mib[k]),
        forall|j: int| 0 <= j < k ==> !reached_by(range)(#[trigger] mib[j]),
    ensures
        mib.filter(inside(range)).len() == mib.filter(
            inside(RangeView { start: mib[k].oid, inclusive: false, end: range.end }),
        ).len() + 1,
    decreases mib.len(),
{
    reveal(Seq::filter);
    let on = RangeView { start: mib[k].oid, inclusive: false, end: range.end };
    let front = mib.drop_last();
    let last = mib[mib.len() - 1];
    if k == mib.len() - 1 {
        assert forall|j: int| 0 <= j < front.len() implies !inside(range)(#[trigger] front[j])
            && !inside(on)(front[j]) by {
            assert(front[j] == mib[j]);
            if oid_before(mib[k].oid, mib[j].oid) {
                lemma_oid_transitive(mib[k].oid, mib[j].oid, mib[k].oid);
                lemma_oid_irreflexive(mib[k].oid);
            }
        }
        front.lemma_all_neg_filter_empty(inside(range));
        front.lemma_all_neg_filter_empty(inside(on));
        lemma_oid_irreflexive(mib[k].oid);
    } else {
        assert(front[k] == mib[k]);
        assert forall|j: int| 0 <= j < k implies !reached_by(range)(#[trigger] front[j]) by {
            assert(front[j] == mib[j]);
        }
        lemma_step_counts(front, range, k);
        lemma_reached_goes_on(range, mib[k], last);
        assert(inside(range)(last) == inside(on)(last));
    }
}

/// What GetNext finds at the begin of a range: nothing where no OID is inside
/// the range, else the first that is.
proof fn lemma_next_counts(mib: Seq<EntryView>, range: RangeView)
    requires
        strictly_in_order(mib),
    ensures
        match next_entry(mib, range) {
            Some(e) => mib.contains(e) && mib.filter(inside(range)).len() == mib.filter(
                inside(RangeView { start: e.oid, inclusive: false, end: range.end }),
            ).len() + 1,
            None => mib.filter(inside(range)).len() == 0,
        },
{
    let test = reached_by(range);
    match first_match(mib, test) {
        Some(e) => {
            let k = lemma_first_match_index(mib, test);
            if next_entry(mib, range) is Some {
                lemma_step_counts(mib, range, k);
            } else {
                assert forall|j: int| 0 <= j < mib.len() implies !inside(range)(
                    #[trigger] mib[j],
                ) by {
                    if j > k && oid_before(mib[j].oid, range.end) {
                        lemma_oid_transitive(mib[k].oid, mib[j].oid, range.end);
                    }
                }
                mib.lemma_all_neg_filter_empty(inside(range));
            }
        },
        None => {
            lemma_no_match(mib, test);
            assert forall|j: int| 0 <= j < mib.len() implies !inside(range)(#[trigger] mib[j]) by {
                assert(!test(mib[j]));
            }
            mib.lemma_all_neg_filter_empty(inside(range));
        },
    }
}

proof fn lemma_repeat_walks(mib: Seq<EntryView>, range: RangeView, n: nat)
    requires
        strictly_in_order(mib),
        holds_values(mib),
    ensures
        repeat(mib, seq![range], n) == walk(mib, range, n),
        walk(mib, range, n).len() == if n <= mib.filter(inside(range)).len() {
            n
        } else {
            mib.filter(inside(range)).len() + 1
        },
    decreases n,
{
    if n > 0 {
        let cursors = seq![range];
        lemma_next_counts(mib, range);
        assert(round_binds(mib, cursors) =~= seq![next_bind(mib, range)]);
        assert(next_entry(mib, cursors[0]) == next_entry(mib, range));
        match next_entry(mib, range) {
            Some(e) => {
                assert(progressed(mib, cursors));
                let i = choose|i: int| 0 <= i < mib.len() && mib[i] == e;
                assert(mib[i].value != ValueView::EndOfMibView);
                let on = RangeView { start: e.oid, inclusive: false, end: range.end };
                assert(round_cursors(mib, cursors) =~= seq![on]);
                lemma_repeat_walks(mib, on, (n - 1) as nat);
            },
            None => {
                assert(!progressed(mib, cursors));
            },
        }
    }
}

/// A GetBulk of one range is the GetNext walk from it, cut after
/// `max_repetitions` binds or after the first end of the view: of a MIB in
/// order it gives back every OID inside the range, once each, as far as the
/// repetitions go, and then the end.
pub proof fn lemma_bulk_is_walk(mib: Seq<EntryView>, range: RangeView, max_repetitions: u16)
    requires
        strictly_in_order(mib),
        holds_values(mib),
    ensures
        answer_view(mib, PduType::GetBulk, seq![range], 0, max_repetitions) == walk(
            mib,
            range,
            max_repetitions as nat,
        ),
        answer_view(mib, PduType::GetBulk, seq![range], 0, max_repetitions).len()
            == if max_repetitions <= mib.filter(inside(range)).len() {
            max_repetitions as nat
        } else {
            mib.filter(inside(range)).len() + 1
        },
{
    assert(seq![range].skip(0) =~= seq![range]);
    lemma_repeat_walks(mib, range, max_repetitions as nat);
    assert(answer_view(mib, PduType::GetBulk, seq![range], 0, max_repetitions) =~= repeat(
        mib,
        seq![range],
        max_repetitions as nat,
    ));
}

// ------------------------------------------------- the MIB as a whole

/// Has an interface an ifIndex?
pub open spec fn has_index(iface: InterfaceState) -> bool {
    index_of(iface.kind@, iface.name@, iface.index) is Some
}

/// The ifIndex of an interface that has one.
pub open spec fn index_at(iface: InterfaceState) -> int {
    index_of(iface.kind@, iface.name@, iface.index)->0
}

/// The interfaces that have an ifIndex.
pub open spec fn indexed(interfaces: Seq<InterfaceState>) -> Seq<InterfaceState> {
    interfaces.filter(|iface: InterfaceState| has_index(iface))
}

/// No two interfaces have the same ifIndex.
pub open spec fn distinct_indexes(interfaces: Seq<InterfaceState>) -> bool {
    forall|i: int, j: int|
        0 <= i < j < interfaces.len() && has_index(#[trigger] interfaces[i]) && has_index(
            #[trigger] interfaces[j],
        ) ==> index_at(interfaces[i]) != index_at(interfaces[j])
}

/// The column of entry `i` of an interface.
pub open spec fn column_of(i: int) -> u32 {
    if i < 14 {
        (i + 1) as u32
    } else if i < 19 {
        (i + 2) as u32
    } else {
        (i - 18) as u32
    }
}

/// The OID of entry `i` of an interface.
pub open spec fn oid_at(i: int, index: u32) -> Seq<u32> {
    if i < 19 {
        if_table().push(column_of(i)).push(index)
    } else {
        if_x_table().push(column_of(i)).push(index)
    }
}

proof fn lemma_if_entries(index: u32, iface: InterfaceState)
    ensures
        if_entries(index, iface).len() == 38,
        forall|i: int|
            0 <= i < 38 ==> (#[trigger] if_entries(index, iface)[i]).oid == oid_at(i, index),
        holds_values(if_entries(index, iface)),
{
}

proof fn lemma_oids_differ(i: int, a: u32, j: int, b: u32)
    requires
        0 <= i < 38,
        0 <= j < 38,
        i != j || a != b,
    ensures
        oid_at(i, a) != oid_at(j, b),
{
    let x = oid_at(i, a);
    let y = oid_at(j, b);
    assert(x[x.len() - 1] == a && y[y.len() - 1] == b);
    assert(x[x.len() - 2] == column_of(i) && y[y.len() - 2] == column_of(j));
    if x == y {
        assert(x.len() == y.len());
        assert((i < 19) == (j < 19));
        assert(column_of(i) == column_of(j));
    }
}

/// OIDs that first differ at a place are ordered by what stands there.
proof fn lemma_oid_first_difference(a: Seq<u32>, b: Seq<u32>, k: int)
    requires
        0 <= k < a.len(),
        k < b.len(),
        forall|j: int| 0 <= j < k ==> a[j] == b[j],
        a[k] < b[k],
    ensures
        oid_before(a, b),
    decreases k,
{
    if k > 0 {
        assert(a[0] == b[0]);
        assert forall|j: int| 0 <= j < k - 1 implies a.skip(1)[j] == b.skip(1)[j] by {
            assert(a[j + 1] == b[j + 1]);
        }
        lemma_oid_first_difference(a.skip(1), b.skip(1), k - 1);
    }
}

proof fn lemma_number_comes_first(count: nat, i: int, index: u32)
    requires
        0 <= i < 38,
    ensures
        oid_before(if_number(count).oid, oid_at(i, index)),
{
    if i < 19 {
        lemma_oid_first_difference(if_number(count).oid, oid_at(i, index), 7);
    } else {
        lemma_oid_first_difference(if_number(count).oid, oid_at(i, index), 6);
    }
}

proof fn lemma_row_entries(interfaces: Seq<InterfaceState>, rows: Seq<(u32, int)>, n: int)
    requires
        0 <= n <= rows.len(),
    ensures
        row_entries(interfaces, rows, n).len() == 38 * n,
        forall|i: int|
            0 <= i < 38 * n ==> (#[trigger] row_entries(interfaces, rows, n)[i]) == if_entries(
                rows[i / 38].0,
                interfaces[rows[i / 38].1],
            )[i % 38],
    decreases n,
{
    if n > 0 {
        lemma_row_entries(interfaces, rows, n - 1);
        lemma_if_entries(rows[n - 1].0, interfaces[rows[n - 1].1]);
        let front = row_entries(interfaces, rows, n - 1);
        let all = row_entries(interfaces, rows, n);
        assert forall|i: int| 0 <= i < 38 * n implies (#[trigger] all[i]) == if_entries(
            rows[i / 38].0,
            interfaces[rows[i / 38].1],
        )[i % 38] by {
            if i < 38 * (n - 1) {
                assert(all[i] == front[i]);
            } else {
                assert(i / 38 == n - 1 && i % 38 == i - 38 * (n - 1));
            }
        }
    }
}

/// The rows of an interface table: each stands for an interface with its
/// ifIndex, and each such interface has one row.
pub open spec fn rows_stand(
    interfaces: Seq<InterfaceState>,
    rows: Seq<(u32, int)>,
    n: int,
) -> bool {
    &&& rows.len() == interfaces.take(n).filter(|iface: InterfaceState| has_index(iface)).len()
    &&& forall|k: int|
        0 <= k < rows.len() ==> {
            &&& 0 <= (#[trigger] rows[k]).1 < n
            &&& has_index(interfaces[rows[k].1])
            &&& rows[k].0 == index_at(interfaces[rows[k].1])
        }
    &&& forall|k: int, l: int|
        0 <= k < l < rows.len() ==> (#[trigger] rows[k]).1 != (#[trigger] rows[l]).1
    &&& forall|i: int|
        0 <= i < n && has_index(#[trigger] interfaces[i]) ==> exists|k: int|
            0 <= k < rows.len() && (#[trigger] rows[k]).1 == i
}

proof fn lemma_index_range(iface: InterfaceState)
    requires
        has_index(iface),
    ensures
        0 <= index_at(iface) <= u32::MAX,
{
    lemma_trailing_nonneg(iface.name@);
}

/// A row is put in at one place, and the others stay.
proof fn lemma_row_place(rows: Seq<(u32, int)>, row: (u32, int)) -> (at: int)
    ensures
        0 <= at <= rows.len(),
        insert_row(rows, row) == rows.take(at).push(row) + rows.skip(at),
    decreases rows.len(),
{
    if rows.len() == 0 || rows.last().0 <= row.0 {
        assert(rows.push(row) =~= rows.take(rows.len() as int).push(row) + rows.skip(
            rows.len() as int,
        ));
        rows.len() as int
    } else {
        let front = rows.drop_last();
        let at = lemma_row_place(front, row);
        assert((front.take(at).push(row) + front.skip(at)).push(rows.last()) =~= rows.take(
            at,
        ).push(row) + rows.skip(at));
        at
    }
}

proof fn lemma_rows_stand(interfaces: Seq<InterfaceState>, n: int)
    requires
        0 <= n <= interfaces.len(),
    ensures
        rows_stand(interfaces, rows_of(interfaces, n), n),
    decreases n,
{
    reveal(Seq::filter);
    if n > 0 {
        lemma_rows_stand(interfaces, n - 1);
        assert(interfaces.take(n).drop_last() =~= interfaces.take(n - 1));
        let iface = interfaces[n - 1];
        let front = rows_of(interfaces, n - 1);
        let rows = rows_of(interfaces, n);
        if has_index(iface) {
            lemma_index_range(iface);
            let row = (index_at(iface) as u32, n - 1);
            let at = lemma_row_place(front, row);
            assert(forall|k: int| 0 <= k < at ==> rows[k] == #[trigger] front[k]);
            assert(rows[at] == row);
            assert(forall|k: int| at < k < rows.len() ==> #[trigger] rows[k] == front[k - 1]);
            assert(forall|k: int| at <= k < front.len() ==> rows[k + 1] == #[trigger] front[k]);
            assert forall|i: int| 0 <= i < n && has_index(#[trigger] interfaces[i]) implies exists|
                k: int,
            | 0 <= k < rows.len() && (#[trigger] rows[k]).1 == i by {
                if i == n - 1 {
                    assert(rows[at].1 == i);
                } else {
                    let k = choose|k: int| 0 <= k < front.len() && (#[trigger] front[k]).1 == i;
                    if k < at {
                        assert(rows[k].1 == i);
                    } else {
                        assert(rows[k + 1].1 == i);
                    }
                }
            }
            assert forall|k: int, l: int| 0 <= k < l < rows.len() implies (#[trigger] rows[k]).1
                != (#[trigger] rows[l]).1 by {
                let a = if k < at {
                    k
                } else {
                    k - 1
                };
                let b = if l < at {
                    l
                } else {
                    l - 1
                };
                if k == at {
                    assert(front[b].1 < n - 1);
                } else if l == at {
                    assert(front[a].1 < n - 1);
                } else {
                    assert(front[a].1 != front[b].1);
                }
            }
        } else {
            assert(rows == front);
        }
    } else {
        assert(interfaces.take(0).len() == 0);
    }
}

/// No OID stands twice.
pub open spec fn distinct_oids(s: Seq<EntryView>) -> bool {
    forall|i: int, j: int|
        0 <= i < j < s.len() ==> (#[trigger] s[i]).oid != (#[trigger] s[j]).oid
}

proof fn lemma_insert_distinct(s: Seq<EntryView>, e: EntryView)
    requires
        distinct_oids(s),
        in_order(s),
        forall|i: int| 0 <= i < s.len() ==> (#[trigger] s[i]).oid != e.oid,
    ensures
        distinct_oids(insert_entry(s, e)),
    decreases s.len(),
{
    if s.len() == 0 || !oid_before(e.oid, s.last().oid) {
    } else {
        let front = s.drop_last();
        lemma_insert_distinct(front, e);
        lemma_insert_entry(front, e);
        let t = insert_entry(front, e);
        let r = insert_entry(s, e);
        assert forall|i: int, j: int| 0 <= i < j < r.len() implies (#[trigger] r[i]).oid != (
        #[trigger] r[j]).oid by {
            assert(r[i] == t[i]);
            if j == s.len() {
                if t[i] != e {
                    let k = choose|k: int| 0 <= k < front.len() && front[k] == t[i];
                    assert(s[k] == t[i] && r[j] == s[s.len() - 1]);
                }
            } else {
                assert(r[j] == t[j]);
            }
        }
    }
}

proof fn lemma_sorted_distinct(s: Seq<EntryView>)
    requires
        distinct_oids(s),
    ensures
        distinct_oids(by_oid(s)),
        strictly_in_order(by_oid(s)),
    decreases s.len(),
{
    broadcast use vstd::seq_lib::group_to_multiset_ensures;

    if s.len() > 0 {
        let front = s.drop_last();
        let t = by_oid(front);
        lemma_sorted_distinct(front);
        lemma_by_oid(front);
        assert forall|i: int| 0 <= i < t.len() implies (#[trigger] t[i]).oid != s.last().oid by {
            assert(t.contains(t[i]));
            assert(front.to_multiset().count(t[i]) > 0);
            let k = choose|k: int| 0 <= k < front.len() && front[k] == t[i];
            assert(s[k] == t[i] && s.last() == s[s.len() - 1]);
        }
        lemma_insert_distinct(t, s.last());
    }
    lemma_by_oid(s);
    let r = by_oid(s);
    assert forall|a: int, b: int| 0 <= a < b < r.len() implies oid_before(r[a].oid, r[b].oid) by {
        lemma_oid_total(r[a].oid, r[b].oid);
        assert(r[a].oid != r[b].oid);
    }
}

/// A MIB in order is fixed by what it holds.
proof fn lemma_order_unique(a: Seq<EntryView>, b: Seq<EntryView>)
    requires
        strictly_in_order(a),
        strictly_in_order(b),
        a.len() == b.len(),
        forall|e: EntryView| #[trigger] a.contains(e) ==> b.contains(e),
        forall|e: EntryView| #[trigger] b.contains(e) ==> a.contains(e),
    ensures
        a == b,
    decreases a.len(),
{
    if a.len() == 0 {
        assert(a =~= b);
    } else {
        let n = a.len() - 1;
        assert(a.contains(a[n]) && b.contains(b[n]));
        let i = choose|i: int| 0 <= i < b.len() && b[i] == a[n];
        let j = choose|j: int| 0 <= j < a.len() && a[j] == b[n];
        if i < n {
            lemma_oid_irreflexive(a[n].oid);
            assert(oid_before(b[i].oid, b[n].oid));
            assert(j != n);
            assert(oid_before(a[j].oid, a[n].oid));
            lemma_oid_transitive(a[n].oid, b[n].oid, a[n].oid);
        }
        assert(a[n] == b[n]);
        let x = a.drop_last();
        let y = b.drop_last();
        assert forall|e: EntryView| #[trigger] x.contains(e) implies y.contains(e) by {
            let k = choose|k: int| 0 <= k < x.len() && x[k] == e;
            assert(a[k] == e && a.contains(e));
            let l = choose|l: int| 0 <= l < b.len() && b[l] == e;
            if l == n {
                lemma_oid_irreflexive(e.oid);
                assert(oid_before(a[k].oid, a[n].oid));
            }
            assert(y[l] == e);
        }
        assert forall|e: EntryView| #[trigger] y.contains(e) implies x.contains(e) by {
            let k = choose|k: int| 0 <= k < y.len() && y[k] == e;
            assert(b[k] == e && b.contains(e));
            let l = choose|l: int| 0 <= l < a.len() && a[l] == e;
            if l == n {
                lemma_oid_irreflexive(e.oid);
                assert(oid_before(b[k].oid, b[n].oid));
            }
            assert(x[l] == e);
        }
        lemma_order_unique(x, y);
        assert(a =~= x.push(a[n]));
        assert(b =~= y.push(b[n]));
    }
}

/// The entries of a MIB before they are sorted.
spec fn unsorted(interfaces: Seq<InterfaceState>) -> Seq<EntryView> {
    let rows = rows_of(interfaces, interfaces.len() as int);
    seq![if_number(rows.len())] + row_entries(interfaces, rows, rows.len() as int)
}

/// Entry `i` behind the first is one of the entries of one of the interfaces.
proof fn lemma_unsorted(interfaces: Seq<InterfaceState>)
    ensures
        ({
            let rows = rows_of(interfaces, interfaces.len() as int);
            let s = unsorted(interfaces);
            &&& rows_stand(interfaces, rows, interfaces.len() as int)
            &&& rows.len() == indexed(interfaces).len()
            &&& s.len() == 1 + 38 * rows.len()
            &&& s[0] == if_number(rows.len())
            &&& forall|i: int|
                1 <= i < s.len() ==> {
                    let row = rows[(i - 1) / 38];
                    &&& (#[trigger] s[i]) == if_entries(row.0, interfaces[row.1])[(i - 1) % 38]
                    &&& s[i].oid == oid_at((i - 1) % 38, row.0)
                    &&& s[i].value != ValueView::EndOfMibView
                }
        }),
{
    let rows = rows_of(interfaces, interfaces.len() as int);
    let entries = row_entries(interfaces, rows, rows.len() as int);
    let s = unsorted(interfaces);
    assert(interfaces.take(interfaces.len() as int) =~= interfaces);
    lemma_rows_stand(interfaces, interfaces.len() as int);
    lemma_row_entries(interfaces, rows, rows.len() as int);
    assert forall|i: int| 1 <= i < s.len() implies {
        let row = rows[(i - 1) / 38];
        &&& (#[trigger] s[i]) == if_entries(row.0, interfaces[row.1])[(i - 1) % 38]
        &&& s[i].oid == oid_at((i - 1) % 38, row.0)
        &&& s[i].value != ValueView::EndOfMibView
    } by {
        let row = rows[(i - 1) / 38];
        assert(s[i] == entries[i - 1]);
        lemma_if_entries(row.0, interfaces[row.1]);
    }
}

proof fn lemma_unsorted_distinct(interfaces: Seq<InterfaceState>)
    requires
        distinct_indexes(interfaces),
    ensures
        distinct_oids(unsorted(interfaces)),
{
    let rows = rows_of(interfaces, interfaces.len() as int);
    let s = unsorted(interfaces);
    lemma_unsorted(interfaces);
    assert forall|i: int, j: int| 0 <= i < j < s.len() implies (#[trigger] s[i]).oid != (
    #[trigger] s[j]).oid by {
        let b = (j - 1) / 38;
        if i == 0 {
            lemma_number_comes_first(rows.len(), (j - 1) % 38, rows[b].0);
            lemma_oid_irreflexive(s[0].oid);
        } else {
            let a = (i - 1) / 38;
            if a == b {
                assert((i - 1) % 38 != (j - 1) % 38);
            } else {
                assert(a < b < rows.len());
                assert(rows[a].1 != rows[b].1);
                assert(has_index(interfaces[rows[a].1]) && has_index(interfaces[rows[b].1]));
                assert(rows[a].0 != rows[b].0);
            }
            lemma_oids_differ((i - 1) % 38, rows[a].0, (j - 1) % 38, rows[b].0);
        }
    }
}

/// With distinct ifIndexes the MIB rises strictly, so that every OID stands
/// once: ifNumber first, and then 38 entries for each interface that has an
/// ifIndex. No entry is the end of the view.
pub proof fn lemma_mib_shape(interfaces: Seq<InterfaceState>)
    requires
        distinct_indexes(interfaces),
    ensures
        strictly_in_order(mib_of(interfaces)),
        holds_values(mib_of(interfaces)),
        mib_of(interfaces).len() == 1 + 38 * indexed(interfaces).len(),
        mib_of(interfaces)[0] == if_number(indexed(interfaces).len()),
{
    broadcast use vstd::seq_lib::group_to_multiset_ensures;

    let rows = rows_of(interfaces, interfaces.len() as int);
    let s = unsorted(interfaces);
    let mib = mib_of(interfaces);
    lemma_unsorted(interfaces);
    lemma_unsorted_distinct(interfaces);
    lemma_by_oid(s);
    lemma_sorted_distinct(s);
    assert forall|i: int| 0 <= i < mib.len() implies s.contains(#[trigger] mib[i]) by {
        assert(mib.contains(mib[i]));
        assert(s.to_multiset().count(mib[i]) > 0);
    }
    assert forall|i: int| 0 <= i < mib.len() implies (#[trigger] mib[i]).value
        != ValueView::EndOfMibView by {
        assert(s.contains(mib[i]));
        let k = choose|k: int| 0 <= k < s.len() && s[k] == mib[i];
        assert(k >= 1 ==> s[k].value != ValueView::EndOfMibView);
    }
    assert(s.contains(s[0]));
    assert(mib.to_multiset().count(s[0]) > 0);
    let at = choose|at: int| 0 <= at < mib.len() && mib[at] == s[0];
    assert(s.contains(mib[0]));
    let k = choose|k: int| 0 <= k < s.len() && s[k] == mib[0];
    if at > 0 {
        assert(oid_before(mib[0].oid, s[0].oid));
        if k > 0 {
            lemma_number_comes_first(rows.len(), (k - 1) % 38, rows[(k - 1) / 38].0);
            lemma_oid_transitive(mib[0].oid, s[0].oid, mib[0].oid);
        }
        lemma_oid_irreflexive(mib[0].oid);
    }
}

proof fn lemma_count_twice(s: Seq<InterfaceState>, i: int, j: int)
    requires
        0 <= i < j < s.len(),
        s[i] == s[j],
    ensures
        s.to_multiset().count(s[i]) >= 2,
    decreases s.len(),
{
    broadcast use vstd::seq_lib::group_to_multiset_ensures;

    let front = s.drop_last();
    assert(s =~= front.push(s.last()));
    if j == s.len() - 1 {
        assert(front.contains(front[i]));
        assert(front.to_multiset().count(front[i]) > 0);
    } else {
        assert(front[i] == s[i] && front[j] == s[j]);
        lemma_count_twice(front, i, j);
    }
}

proof fn lemma_count_once(s: Seq<InterfaceState>, x: InterfaceState)
    requires
        has_index(x),
        distinct_indexes(s),
    ensures
        s.to_multiset().count(x) <= 1,
    decreases s.len(),
{
    broadcast use vstd::seq_lib::group_to_multiset_ensures;

    if s.len() > 0 {
        let front = s.drop_last();
        assert(s =~= front.push(s.last()));
        assert forall|i: int, j: int|
            0 <= i < j < front.len() && has_index(#[trigger] front[i]) && has_index(
                #[trigger] front[j],
            ) implies index_at(front[i]) != index_at(front[j]) by {
            assert(front[i] == s[i] && front[j] == s[j]);
        }
        lemma_count_once(front, x);
        if s.last() == x && front.contains(x) {
            let k = choose|k: int| 0 <= k < front.len() && front[k] == x;
            assert(has_index(s[k]) && has_index(s[s.len() - 1]));
        }
        assert(!front.contains(x) ==> front.to_multiset().count(x) == 0);
    }
}

proof fn lemma_filter_counts(s: Seq<InterfaceState>, x: InterfaceState)
    requires
        has_index(x),
    ensures
        indexed(s).to_multiset().count(x) == s.to_multiset().count(x),
    decreases s.len(),
{
    broadcast use vstd::seq_lib::group_to_multiset_ensures;

    reveal(Seq::filter);
    if s.len() > 0 {
        let front = s.drop_last();
        assert(s =~= front.push(s.last()));
        lemma_filter_counts(front, x);
    } else {
        assert(indexed(s) =~= s);
    }
}

/// Interface tables that hold the same interfaces, as far as they have an
/// ifIndex.
spec fn alike(a: Seq<InterfaceState>, b: Seq<InterfaceState>) -> bool {
    forall|x: InterfaceState|
        has_index(x) ==> #[trigger] a.to_multiset().count(x) == b.to_multiset().count(x)
}

proof fn lemma_alike_distinct(a: Seq<InterfaceState>, b: Seq<InterfaceState>)
    requires
        distinct_indexes(a),
        alike(a, b),
    ensures
        distinct_indexes(b),
        forall|x: InterfaceState| has_index(x) ==> #[trigger] a.contains(x) == b.contains(x),
{
    broadcast use vstd::seq_lib::group_to_multiset_ensures;

    assert forall|x: InterfaceState| has_index(x) implies #[trigger] a.contains(x) == b.contains(
        x,
    ) by {
        assert(a.to_multiset().count(x) == b.to_multiset().count(x));
        assert(a.contains(x) == (a.to_multiset().count(x) > 0));
        assert(b.contains(x) == (b.to_multiset().count(x) > 0));
    }
    assert forall|i: int, j: int|
        0 <= i < j < b.len() && has_index(#[trigger] b[i]) && has_index(
            #[trigger] b[j],
        ) implies index_at(b[i]) != index_at(b[j]) by {
        if index_at(b[i]) == index_at(b[j]) {
            assert(b.contains(b[i]) && b.contains(b[j]));
            assert(a.contains(b[i]) && a.contains(b[j]));
            let k = choose|k: int| 0 <= k < a.len() && a[k] == b[i];
            let l = choose|l: int| 0 <= l < a.len() && a[l] == b[j];
            assert(has_index(a[k]) && has_index(a[l]));
            if k < l {
                assert(index_at(a[k]) != index_at(a[l]));
            } else if l < k {
                assert(index_at(a[l]) != index_at(a[k]));
            }
            lemma_count_twice(b, i, j);
            lemma_count_once(a, b[i]);
            assert(a.to_multiset().count(b[i]) == b.to_multiset().count(b[i]));
        }
    }
}

/// What the entries of one table hold, those of a like one do.
proof fn lemma_alike_entries(a: Seq<InterfaceState>, b: Seq<InterfaceState>, e: EntryView)
    requires
        forall|x: InterfaceState| has_index(x) ==> #[trigger] a.contains(x) == b.contains(x),
        rows_of(a, a.len() as int).len() == rows_of(b, b.len() as int).len(),
        unsorted(a).contains(e),
    ensures
        unsorted(b).contains(e),
{
    let s = unsorted(a);
    let t = unsorted(b);
    let rows = rows_of(a, a.len() as int);
    let others = rows_of(b, b.len() as int);
    lemma_unsorted(a);
    lemma_unsorted(b);
    let i = choose|i: int| 0 <= i < s.len() && s[i] == e;
    if i == 0 {
        assert(t[0] == e);
    } else {
        let row = rows[(i - 1) / 38];
        let x = a[row.1];
        assert(has_index(x) && row.0 == index_at(x));
        assert(a.contains(x));
        assert(b.contains(x));
        let j = choose|j: int| 0 <= j < b.len() && b[j] == x;
        assert(has_index(b[j]));
        let k = choose|k: int| 0 <= k < others.len() && (#[trigger] others[k]).1 == j;
        assert(others[k].0 == row.0);
        let at = 1 + 38 * k + (i - 1) % 38;
        assert((at - 1) / 38 == k && (at - 1) % 38 == (i - 1) % 38);
        assert(t[at] == e);
    }
}

proof fn lemma_alike_count(a: Seq<InterfaceState>, b: Seq<InterfaceState>)
    requires
        distinct_indexes(a),
        distinct_indexes(b),
        forall|x: InterfaceState| has_index(x) ==> #[trigger] a.contains(x) == b.contains(x),
    ensures
        rows_of(a, a.len() as int).len() <= rows_of(b, b.len() as int).len(),
{
    let rows = rows_of(a, a.len() as int);
    let others = rows_of(b, b.len() as int);
    lemma_rows_stand(a, a.len() as int);
    lemma_rows_stand(b, b.len() as int);
    let mine = Seq::new(rows.len(), |k: int| rows[k].0);
    let theirs = Seq::new(others.len(), |k: int| others[k].0);
    assert forall|k: int, l: int| 0 <= k < l < mine.len() implies mine[k] != mine[l] by {
        assert(rows[k].1 != rows[l].1);
        assert(has_index(a[rows[k].1]) && has_index(a[rows[l].1]));
    }
    assert(mine.no_duplicates());
    mine.unique_seq_to_set();
    assert forall|v: u32| #[trigger] mine.to_set().contains(v) implies theirs.to_set().contains(
        v,
    ) by {
        let k = choose|k: int| 0 <= k < mine.len() && mine[k] == v;
        let x = a[rows[k].1];
        assert(rows[k].0 == v && has_index(x));
        assert(a.contains(x));
        assert(b.contains(x));
        let j = choose|j: int| 0 <= j < b.len() && b[j] == x;
        assert(has_index(b[j]));
        let l = choose|l: int| 0 <= l < others.len() && (#[trigger] others[l]).1 == j;
        assert(theirs[l] == v);
    }
    vstd::seq_lib::seq_to_set_is_finite(theirs);
    vstd::set_lib::lemma_len_subset(mine.to_set(), theirs.to_set());
    theirs.lemma_cardinality_of_set();
}

proof fn lemma_alike_mib(a: Seq<InterfaceState>, b: Seq<InterfaceState>)
    requires
        distinct_indexes(a),
        alike(a, b),
    ensures
        mib_of(a) == mib_of(b),
{
    broadcast use vstd::seq_lib::group_to_multiset_ensures;

    lemma_alike_distinct(a, b);
    lemma_alike_count(a, b);
    lemma_alike_count(b, a);
    lemma_mib_shape(a);
    lemma_mib_shape(b);
    lemma_unsorted(a);
    lemma_unsorted(b);
    lemma_by_oid(unsorted(a));
    lemma_by_oid(unsorted(b));
    assert forall|e: EntryView| #[trigger] mib_of(a).contains(e) implies mib_of(b).contains(e) by {
        assert(mib_of(a).to_multiset().count(e) > 0);
        assert(unsorted(a).contains(e));
        lemma_alike_entries(a, b, e);
        assert(unsorted(b).to_multiset().count(e) > 0);
    }
    assert forall|e: EntryView| #[trigger] mib_of(b).contains(e) implies mib_of(a).contains(e) by {
        assert(mib_of(b).to_multiset().count(e) > 0);
        assert(unsorted(b).contains(e));
        lemma_alike_entries(b, a, e);
        assert(unsorted(a).to_multiset().count(e) > 0);
    }
    lemma_order_unique(mib_of(a), mib_of(b));
}

/// With distinct ifIndexes the order of the interfaces does not matter: any
/// reordering gives the same MIB.
pub proof fn lemma_mib_ignores_order(
    interfaces: Seq<InterfaceState>,
    reordered: Seq<InterfaceState>,
)
    requires
        distinct_indexes(interfaces),
        reordered.to_multiset() == interfaces.to_multiset(),
    ensures
        mib_of(reordered) == mib_of(interfaces),
{
    lemma_alike_mib(interfaces, reordered);
}

/// Interfaces without an ifIndex do not matter: the MIB is that of the
/// others.
pub proof fn lemma_mib_ignores_unindexed(interfaces: Seq<InterfaceState>)
    requires
        distinct_indexes(interfaces),
    ensures
        mib_of(indexed(interfaces)) == mib_of(interfaces),
{
    let kept = indexed(interfaces);
    assert forall|x: InterfaceState| has_index(x) implies #[trigger] interfaces.to_multiset().count(
        x,
    ) == kept.to_multiset().count(x) by {
        lemma_filter_counts(interfaces, x);
    }
    lemma_alike_mib(interfaces, kept);
}

// ---------------------------------------------------------------- engine

/// Config pushed from mgmtd. Disabled = SNMP is off and the subagent
/// keeps no session.
#[derive(Debug)]
pub struct Config {
    pub enabled: bool,
    /// The AgentX master socket snmpd was rendered with.
    pub socket: String,
    pub location: String,
    pub contact: String,
    /// v2c communities in config order: (name, source); an empty
    /// source answers anywhere.
    pub communities: Vec<(String, String)>,
    /// v3 USM user names (passphrases never leave mgmtd's render).
    pub users: Vec<String>,
    /// The interface the agent listens on, for display.
    pub listen_interface: String,
    pub listen_address: String,
}

/// Two configs that say the same.
pub open spec fn same_config(a: Config, b: Config) -> bool {
    &&& a.enabled == b.enabled
    &&& a.socket@ == b.socket@
    &&& a.location@ == b.location@
    &&& a.contact@ == b.contact@
    &&& a.communities.deep_view() == b.communities.deep_view()
    &&& a.users.deep_view() == b.users.deep_view()
    &&& a.listen_interface@ == b.listen_interface@
    &&& a.listen_address@ == b.listen_address@
}

impl Default for Config {
    fn default() -> (r: Self)
        ensures
            !r.enabled,
            r.socket@.len() == 0,
            r.location@.len() == 0,
            r.contact@.len() == 0,
            r.communities@.len() == 0,
            r.users@.len() == 0,
            r.listen_interface@.len() == 0,
            r.listen_address@.len() == 0,
    {
        Config {
            enabled: false,
            socket: String::new(),
            location: String::new(),
            contact: String::new(),
            communities: Vec::new(),
            users: Vec::new(),
            listen_interface: String::new(),
            listen_address: String::new(),
        }
    }
}

impl Config {
    pub fn copy(&self) -> (r: Config)
        ensures
            same_config(r, *self),
    {
        let mut communities: Vec<(String, String)> = Vec::new();
        let mut i: usize = 0;
        while i < self.communities.len()
            invariant
                i <= self.communities@.len(),
                communities@.len() == i,
                forall|j: int|
                    0 <= j < i ==> (#[trigger] communities@[j]).deep_view()
                        == self.communities@[j].deep_view(),
            decreases self.communities@.len() - i,
        {
            communities.push((self.communities[i].0.clone(), self.communities[i].1.clone()));
            i = i + 1;
        }
        assert(communities.deep_view() =~= self.communities.deep_view());
        let users = copy_texts(&self.users);
        assert(users.deep_view() =~= self.users.deep_view());
        Config {
            enabled: self.enabled,
            socket: self.socket.clone(),
            location: self.location.clone(),
            contact: self.contact.clone(),
            communities,
            users,
            listen_interface: self.listen_interface.clone(),
            listen_address: self.listen_address.clone(),
        }
    }
}

/// What the subagent has counted.
#[derive(Debug, Clone, Copy, PartialEq, Eq, Structural)]
pub struct Counters {
    pub packets_in: u64,
    pub packets_out: u64,
    pub get_requests: u64,
    pub getnext_requests: u64,
    pub errors: u64,
}

/// What `show snmp` renders.
#[derive(Debug)]
pub struct Snapshot {
    pub config: Config,
    /// The subagent holds an open AgentX session with the master.
    pub connected: bool,
    pub packets_in: u64,
    pub packets_out: u64,
    pub get_requests: u64,
    pub getnext_requests: u64,
    pub errors: u64,
}

pub struct Engine {
    pub config: Config,
    pub connected: bool,
    pub counters: Counters,
    /// The MIB, sorted by OID.
    pub mib: Vec<(Oid, Value)>,
    /// When the MIB was built, in milliseconds.
    pub built: Option<u64>,
}

/// Every counter can count one more.
pub open spec fn can_count(c: Counters) -> bool {
    c.packets_in < u64::MAX && c.packets_out < u64::MAX && c.get_requests < u64::MAX
        && c.getnext_requests < u64::MAX && c.errors < u64::MAX
}

/// The counters after one request of a PDU type.
pub open spec fn counted(c: Counters, pdu_type: PduType) -> Counters {
    Counters {
        packets_in: (c.packets_in + 1) as u64,
        packets_out: (c.packets_out + 1) as u64,
        get_requests: if pdu_type == PduType::Get {
            (c.get_requests + 1) as u64
        } else {
            c.get_requests
        },
        getnext_requests: if pdu_type == PduType::GetNext || pdu_type == PduType::GetBulk {
            (c.getnext_requests + 1) as u64
        } else {
            c.getnext_requests
        },
        errors: c.errors,
    }
}

/// A response to a request, with no error and the answer of the MIB.
pub open spec fn reply_bytes(
    mib: Seq<EntryView>,
    header: Header,
    ranges: Seq<RangeView>,
    non_repeaters: u16,
    max_repetitions: u16,
) -> Seq<u8> {
    plain_reply(
        header,
        ERROR_NONE,
        0,
        answer_view(mib, header.pdu_type, ranges, non_repeaters, max_repetitions),
    )
}

/// A response with the ids of the request's header.
pub open spec fn plain_reply(
    header: Header,
    error: u16,
    index: u16,
    binds: Seq<BindView>,
) -> Seq<u8> {
    crate::agentx::frame_bytes(
        PduType::Response,
        header.session_id,
        header.transaction_id,
        header.packet_id,
        crate::agentx::response_payload(error, index, binds),
    )
}

impl Engine {
    pub fn new() -> (r: Engine)
        ensures
            !r.connected,
            r.counters == (Counters {
                packets_in: 0,
                packets_out: 0,
                get_requests: 0,
                getnext_requests: 0,
                errors: 0,
            }),
            r.mib@.len() == 0,
            r.built is None,
            !r.config.enabled,
            r.config.socket@.len() == 0,
            r.config.location@.len() == 0,
            r.config.contact@.len() == 0,
            r.config.communities@.len() == 0,
            r.config.users@.len() == 0,
            r.config.listen_interface@.len() == 0,
            r.config.listen_address@.len() == 0,
    {
        Engine {
            config: Config::default(),
            connected: false,
            counters: Counters {
                packets_in: 0,
                packets_out: 0,
                get_requests: 0,
                getnext_requests: 0,
                errors: 0,
            },
            mib: Vec::new(),
            built: None,
        }
    }

    /// Replace the configuration (declarative). A config change invalidates
    /// nothing about the MIB, but a disable stops claiming a session.
    pub fn set_config(&mut self, config: Config)
        ensures
            final(self).config == config,
            final(self).connected == (config.enabled && old(self).connected),
            final(self).counters == old(self).counters,
            final(self).mib == old(self).mib,
            final(self).built == old(self).built,
    {
        if !config.enabled {
            self.connected = false;
        }
        self.config = config;
    }

    pub fn config(&self) -> (r: Config)
        ensures
            same_config(r, self.config),
    {
        self.config.copy()
    }

    pub fn snapshot(&self) -> (r: Snapshot)
        ensures
            same_config(r.config, self.config),
            r.connected == self.connected,
            r.packets_in == self.counters.packets_in,
            r.packets_out == self.counters.packets_out,
            r.get_requests == self.counters.get_requests,
            r.getnext_requests == self.counters.getnext_requests,
            r.errors == self.counters.errors,
    {
        Snapshot {
            config: self.config.copy(),
            connected: self.connected,
            packets_in: self.counters.packets_in,
            packets_out: self.counters.packets_out,
            get_requests: self.counters.get_requests,
            getnext_requests: self.counters.getnext_requests,
            errors: self.counters.errors,
        }
    }

    pub fn set_connected(&mut self, connected: bool)
        ensures
            *final(self) == (Engine { connected, ..*old(self) }),
    {
        self.connected = connected;
    }

    /// Is the cached MIB still fresh?
    pub fn mib_fresh(&self, now: u64) -> (r: bool)
        ensures
            r == (self.built matches Some(t) && now - t < CACHE_TTL),
    {
        match self.built {
            Some(t) => now < t || now - t < CACHE_TTL,
            None => false,
        }
    }

    pub fn store_mib(&mut self, mib: Vec<(Oid, Value)>, now: u64)
        ensures
            *final(self) == (Engine { mib, built: Some(now), ..*old(self) }),
    {
        self.mib = mib;
        self.built = Some(now);
    }

    /// Serve one decoded request against the cached MIB, counting it.
    pub fn serve(&mut self, request: &Request) -> (reply: Vec<u8>)
        requires
            can_count(old(self).counters),
        ensures
            reply@ == reply_bytes(
                mib_view(old(self).mib@),
                request.header,
                request.ranges.deep_view(),
                request.non_repeaters,
                request.max_repetitions,
            ),
            *final(self) == (Engine {
                counters: counted(old(self).counters, request.header.pdu_type),
                ..*old(self)
            }),
    {
        self.counters.packets_in = self.counters.packets_in + 1;
        match request.header.pdu_type {
            PduType::Get => {
                self.counters.get_requests = self.counters.get_requests + 1;
            },
            PduType::GetNext => {
                self.counters.getnext_requests = self.counters.getnext_requests + 1;
            },
            PduType::GetBulk => {
                self.counters.getnext_requests = self.counters.getnext_requests + 1;
            },
            _ => {},
        }
        let binds = answer(&self.mib, request);
        self.counters.packets_out = self.counters.packets_out + 1;
        response_pdu(&request.header, ERROR_NONE, 0, &binds)
    }

    pub fn count_error(&mut self)
        requires
            old(self).counters.errors < u64::MAX,
        ensures
            *final(self) == (Engine {
                counters: Counters {
                    errors: (old(self).counters.errors + 1) as u64,
                    ..old(self).counters
                },
                ..*old(self)
            }),
    {
        self.counters.errors = self.counters.errors + 1;
    }
}

// ------------------------------------------------------- the master session

/// How far a session with the master has come.
#[derive(Debug, Clone, Copy, PartialEq, Eq, Structural)]
pub enum Phase {
    /// The Open PDU was sent.
    Opening,
    /// The registration of the interfaces group was sent.
    RegisteringInterfaces,
    /// The registration of ifXTable was sent.
    RegisteringIfX,
    /// Both subtrees are registered; requests are served.
    Serving,
}

/// A session with the master agent.
#[derive(Debug, Clone, Copy, PartialEq, Eq, Structural)]
pub struct Session {
    pub phase: Phase,
    pub session_id: u32,
}

/// What the session does about a PDU.
pub enum Reply {
    /// Write these bytes to the master.
    Send(Vec<u8>),
    /// Nothing to write; wait for the next PDU.
    Wait,
    /// The session is over.
    Refused(String),
}

/// The header of a PDU about to be read, or why it is refused. A hostile
/// length would otherwise be an allocation bomb.
pub fn check_header(head: &[u8]) -> (r: Result<Header, String>)
    ensures
        match crate::agentx::header_of(head@) {
            None => r matches Err(e) && e@ == "bad agentx header"@,
            Some(h) => if h.payload_len > MAX_PAYLOAD {
                r matches Err(e) && e@ == "agentx payload too large ("@
                    + crate::text::decimal_text(h.payload_len as nat) + ")"@
            } else {
                r == Ok::<Header, String>(h)
            },
        },
{
    match Header::parse(head) {
        None => Err("bad agentx header".to_owned()),
        Some(h) => if h.payload_len > MAX_PAYLOAD {
            Err(
                cat3(
                    "agentx payload too large (",
                    decimal(h.payload_len as u64).as_str(),
                    ")",
                ),
            )
        } else {
            Ok(h)
        },
    }
}

/// Does a PDU ask for the MIB?
pub open spec fn is_retrieval(t: PduType) -> bool {
    t == PduType::Get || t == PduType::GetNext || t == PduType::GetBulk
}

pub fn asks_for_mib(t: PduType) -> (r: bool)
    ensures
        r == is_retrieval(t),
{
    t == PduType::Get || t == PduType::GetNext || t == PduType::GetBulk
}

/// The error code of a response, where it can be read.
pub open spec fn response_error(payload: Seq<u8>) -> Option<u16> {
    if payload.len() < 6 {
        None
    } else {
        Some(crate::bytes::word16(payload, 4))
    }
}

/// Was a registration refused?
pub open spec fn registration_refused(payload: Seq<u8>) -> bool {
    response_error(payload) matches Some(e) && e != ERROR_NONE && e != 263
}

/// What the engine answers to a PDU of a registered session, and whether
/// the PDU counts as an error. None: no answer.
pub open spec fn serving_reply(
    mib: Seq<EntryView>,
    header: Header,
    payload: Seq<u8>,
) -> Option<Seq<u8>> {
    if is_retrieval(header.pdu_type) {
        match crate::agentx::repeat_counts(header.pdu_type == PduType::GetBulk, payload) {
            Some((non_repeaters, max_repetitions, at)) => match crate::agentx::ranges_at(payload, at) {
                Some(ranges) => Some(
                    reply_bytes(mib, header, ranges, non_repeaters, max_repetitions),
                ),
                None => Some(plain_reply(header, ERROR_NONE, 0, Seq::empty())),
            },
            None => Some(plain_reply(header, ERROR_NONE, 0, Seq::empty())),
        }
    } else if header.pdu_type == PduType::TestSet {
        Some(plain_reply(header, ERROR_NOT_WRITABLE, 1, Seq::empty()))
    } else if header.pdu_type == PduType::Response {
        None
    } else {
        Some(plain_reply(header, ERROR_NONE, 0, Seq::empty()))
    }
}

/// Can a retrieval payload be decoded?
pub open spec fn decodes(header: Header, payload: Seq<u8>) -> bool {
    crate::agentx::repeat_counts(header.pdu_type == PduType::GetBulk, payload) matches Some((_, _, at))
        && crate::agentx::ranges_at(payload, at) is Some
}

/// The counters after a PDU of a registered session.
pub open spec fn serving_counters(c: Counters, header: Header, payload: Seq<u8>) -> Counters {
    if is_retrieval(header.pdu_type) && decodes(header, payload) {
        counted(c, header.pdu_type)
    } else if is_retrieval(header.pdu_type) || header.pdu_type == PduType::TestSet {
        Counters { errors: (c.errors + 1) as u64, ..c }
    } else {
        c
    }
}

/// The registration PDU of a subtree.
pub open spec fn registration(session_id: u32, packet_id: u32, subtree: Seq<u32>) -> Seq<u8> {
    crate::agentx::frame_bytes(PduType::Register, session_id, 0, packet_id, crate::agentx::register_payload(subtree, PRIORITY))
}

/// Should the subagent hold a session at all?
pub fn wants_session(config: &Config) -> (r: bool)
    ensures
        r == (config.enabled && config.socket@.len() > 0),
{
    config.enabled && !config.socket.as_str().is_empty()
}

impl Session {
    /// Begin a session: the bytes that open it.
    pub fn open() -> (r: (Session, Vec<u8>))
        ensures
            r.0 == (Session { phase: Phase::Opening, session_id: 0 }),
            r.1@ == crate::agentx::frame_bytes(
                PduType::Open,
                0,
                0,
                1,
                crate::agentx::open_payload(SUBAGENT_ID@, vstd::utf8::encode_utf8("hemlock-orch"@)),
            ),
    {
        let id = SUBAGENT_ID;
        (
            Session { phase: Phase::Opening, session_id: 0 },
            open_pdu(1, id.as_slice(), "hemlock-orch"),
        )
    }

    /// One PDU from the master: register both subtrees in turn, then serve.
    /// A refused registration ends the session; a duplicate one does not.
    /// Every Set phase is refused up front (read-only), so the master never
    /// reaches CommitSet.
    pub fn on_pdu(&mut self, engine: &mut Engine, header: Header, payload: &[u8]) -> (reply: Reply)
        requires
            can_count(old(engine).counters),
        ensures
            match old(self).phase {
                Phase::Opening => {
                    &&& *final(engine) == *old(engine)
                    &&& match response_error(payload@) {
                        None => reply matches Reply::Refused(e) && e@
                            == "unreadable open response"@ && *final(self) == *old(self),
                        Some(error) => if error != ERROR_NONE {
                            reply matches Reply::Refused(e) && e@ == "agentx open refused (error "@
                                + crate::text::decimal_text(error as nat) + ")"@ && *final(self)
                                == *old(self)
                        } else {
                            reply matches Reply::Send(b) && b@ == registration(
                                header.session_id,
                                2,
                                INTERFACES@,
                            ) && *final(self) == (Session {
                                phase: Phase::RegisteringInterfaces,
                                session_id: header.session_id,
                            })
                        },
                    }
                },
                Phase::RegisteringInterfaces => {
                    &&& *final(engine) == *old(engine)
                    &&& if registration_refused(payload@) {
                        reply matches Reply::Refused(e) && e@
                            == "agentx registration refused (error "@ + crate::text::decimal_text(
                            crate::bytes::word16(payload@, 4) as nat,
                        ) + ")"@ && *final(self) == *old(self)
                    } else {
                        reply matches Reply::Send(b) && b@ == registration(
                            old(self).session_id,
                            3,
                            IF_X@,
                        ) && *final(self) == (Session {
                            phase: Phase::RegisteringIfX,
                            ..*old(self)
                        })
                    }
                },
                Phase::RegisteringIfX => {
                    if registration_refused(payload@) {
                        reply matches Reply::Refused(e) && e@
                            == "agentx registration refused (error "@ + crate::text::decimal_text(
                            crate::bytes::word16(payload@, 4) as nat,
                        ) + ")"@ && *final(self) == *old(self) && *final(engine) == *old(engine)
                    } else {
                        reply is Wait && *final(self) == (Session {
                            phase: Phase::Serving,
                            ..*old(self)
                        }) && *final(engine) == (Engine { connected: true, ..*old(engine) })
                    }
                },
                Phase::Serving => {
                    &&& *final(self) == *old(self)
                    &&& *final(engine) == (Engine {
                        counters: serving_counters(old(engine).counters, header, payload@),
                        ..*old(engine)
                    })
                    &&& match serving_reply(mib_view(old(engine).mib@), header, payload@) {
                        Some(bytes) => reply matches Reply::Send(b) && b@ == bytes,
                        None => reply is Wait,
                    }
                },
            },
    {
        match self.phase {
            Phase::Opening => match parse_response(&header, payload) {
                None => Reply::Refused("unreadable open response".to_owned()),
                Some((session_id, error)) => {
                    if error != ERROR_NONE {
                        return Reply::Refused(
                            cat3(
                                "agentx open refused (error ",
                                decimal(error as u64).as_str(),
                                ")",
                            ),
                        );
                    }
                    self.phase = Phase::RegisteringInterfaces;
                    self.session_id = session_id;
                    let subtree = INTERFACES;
                    Reply::Send(register_pdu(session_id, 2, subtree.as_slice(), PRIORITY))
                },
            },
            Phase::RegisteringInterfaces => {
                match parse_response(&header, payload) {
                    Some((_, error)) => {
                        if error != ERROR_NONE && !is_duplicate_registration(error) {
                            return Reply::Refused(
                                cat3(
                                    "agentx registration refused (error ",
                                    decimal(error as u64).as_str(),
                                    ")",
                                ),
                            );
                        }
                    },
                    None => {},
                }
                self.phase = Phase::RegisteringIfX;
                let subtree = IF_X;
                Reply::Send(register_pdu(self.session_id, 3, subtree.as_slice(), PRIORITY))
            },
            Phase::RegisteringIfX => {
                match parse_response(&header, payload) {
                    Some((_, error)) => {
                        if error != ERROR_NONE && !is_duplicate_registration(error) {
                            return Reply::Refused(
                                cat3(
                                    "agentx registration refused (error ",
                                    decimal(error as u64).as_str(),
                                    ")",
                                ),
                            );
                        }
                    },
                    None => {},
                }
                self.phase = Phase::Serving;
                engine.set_connected(true);
                Reply::Wait
            },
            Phase::Serving => {
                let none: Vec<VarBind> = Vec::new();
                assert(none.deep_view() =~= Seq::<BindView>::empty());
                match header.pdu_type {
                    PduType::Get | PduType::GetNext | PduType::GetBulk => match parse_request(
                        header,
                        payload,
                    ) {
                        Some(request) => Reply::Send(engine.serve(&request)),
                        None => {
                            engine.count_error();
                            Reply::Send(response_pdu(&header, ERROR_NONE, 0, &none))
                        },
                    },
                    PduType::TestSet => {
                        engine.count_error();
                        Reply::Send(response_pdu(&header, ERROR_NOT_WRITABLE, 1, &none))
                    },
                    PduType::Response => Reply::Wait,
                    _ => Reply::Send(response_pdu(&header, ERROR_NONE, 0, &none)),
                }
            },
        }
    }
}

} // verus!
