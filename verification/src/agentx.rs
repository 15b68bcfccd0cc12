//! AgentX (RFC 2741) wire format: PDU encode/decode and the value
//! types the IF-MIB needs.
//!
//! Deliberately partial. A subagent that only *serves* a read-only MIB
//! needs Open, Register, Response and the three retrieval PDUs.
//!
//! Everything here is pure: bytes in, bytes out.

use vstd::prelude::*;

use crate::bytes::{push_all, push_be16, push_be32, push_be64, push_fill, read16, read32};

verus! {

/// AgentX protocol version.
pub const VERSION: u8 = 1;

/// The fixed PDU header size.
pub const HEADER_LEN: usize = 20;

/// `NETWORK_BYTE_ORDER` — every PDU this subagent emits is big-endian.
pub const FLAG_NETWORK_BYTE_ORDER: u8 = 0x10;

/// Set on a SearchRange's start OID: the range includes it.
pub const OID_INCLUDE: u8 = 1;

#[derive(Debug, Clone, Copy, PartialEq, Eq, Structural)]
pub enum PduType {
    Open,
    Close,
    Register,
    Unregister,
    Get,
    GetNext,
    GetBulk,
    TestSet,
    CommitSet,
    UndoSet,
    CleanupSet,
    Notify,
    Ping,
    Response,
    /// Anything this subagent does not implement, kept so a stray PDU
    /// can still be answered rather than desynchronising the stream.
    Other(u8),
}

/// The code of a PDU type on the wire.
pub open spec fn pdu_code(t: PduType) -> u8 {
    match t {
        PduType::Open => 1,
        PduType::Close => 2,
        PduType::Register => 3,
        PduType::Unregister => 4,
        PduType::Get => 5,
        PduType::GetNext => 6,
        PduType::GetBulk => 7,
        PduType::TestSet => 8,
        PduType::CommitSet => 9,
        PduType::UndoSet => 10,
        PduType::CleanupSet => 11,
        PduType::Notify => 12,
        PduType::Ping => 13,
        PduType::Response => 18,
        PduType::Other(code) => code,
    }
}

/// The PDU type of a code.
pub open spec fn pdu_of(code: u8) -> PduType {
    if code == 1 {
        PduType::Open
    } else if code == 2 {
        PduType::Close
    } else if code == 3 {
        PduType::Register
    } else if code == 4 {
        PduType::Unregister
    } else if code == 5 {
        PduType::Get
    } else if code == 6 {
        PduType::GetNext
    } else if code == 7 {
        PduType::GetBulk
    } else if code == 8 {
        PduType::TestSet
    } else if code == 9 {
        PduType::CommitSet
    } else if code == 10 {
        PduType::UndoSet
    } else if code == 11 {
        PduType::CleanupSet
    } else if code == 12 {
        PduType::Notify
    } else if code == 13 {
        PduType::Ping
    } else if code == 18 {
        PduType::Response
    } else {
        PduType::Other(code)
    }
}

impl PduType {
    pub fn code(self) -> (r: u8)
        ensures
            r == pdu_code(self),
    {
        match self {
            PduType::Open => 1,
            PduType::Close => 2,
            PduType::Register => 3,
            PduType::Unregister => 4,
            PduType::Get => 5,
            PduType::GetNext => 6,
            PduType::GetBulk => 7,
            PduType::TestSet => 8,
            PduType::CommitSet => 9,
            PduType::UndoSet => 10,
            PduType::CleanupSet => 11,
            PduType::Notify => 12,
            PduType::Ping => 13,
            PduType::Response => 18,
            PduType::Other(code) => code,
        }
    }

    pub fn from_code(code: u8) -> (r: Self)
        ensures
            r == pdu_of(code),
    {
        match code {
            1 => PduType::Open,
            2 => PduType::Close,
            3 => PduType::Register,
            4 => PduType::Unregister,
            5 => PduType::Get,
            6 => PduType::GetNext,
            7 => PduType::GetBulk,
            8 => PduType::TestSet,
            9 => PduType::CommitSet,
            10 => PduType::UndoSet,
            11 => PduType::CleanupSet,
            12 => PduType::Notify,
            13 => PduType::Ping,
            18 => PduType::Response,
            other => PduType::Other(other),
        }
    }
}

/// Every code survives the way to a PDU type and back.
pub proof fn lemma_code_round_trip(code: u8)
    ensures
        pdu_code(pdu_of(code)) == code,
{
}

/// Every PDU type with a name of its own survives the way to a code and
/// back; so does any other code that no named type has.
pub proof fn lemma_type_round_trip(t: PduType)
    requires
        t matches PduType::Other(code) ==> pdu_of(code) is Other,
    ensures
        pdu_of(pdu_code(t)) == t,
{
}

/// RFC 2741 §6.2.16 error codes (only the ones this subagent returns).
pub const ERROR_NONE: u16 = 0;

pub const ERROR_NOT_WRITABLE: u16 = 17;

/// A decoded PDU header.
#[derive(Debug, Clone, Copy, PartialEq, Eq, Structural)]
pub struct Header {
    pub pdu_type: PduType,
    pub flags: u8,
    pub session_id: u32,
    pub transaction_id: u32,
    pub packet_id: u32,
    pub payload_len: u32,
}

/// The header that stands at the front of some bytes. None when the
/// header is short, the version is wrong, or the sender is little-endian.
pub open spec fn header_of(s: Seq<u8>) -> Option<Header> {
    if s.len() < HEADER_LEN || s[0] != VERSION || s[2] & FLAG_NETWORK_BYTE_ORDER == 0 {
        None
    } else {
        Some(
            Header {
                pdu_type: pdu_of(s[1]),
                flags: s[2],
                session_id: crate::bytes::word32(s, 4),
                transaction_id: crate::bytes::word32(s, 8),
                packet_id: crate::bytes::word32(s, 12),
                payload_len: crate::bytes::word32(s, 16),
            },
        )
    }
}

impl Header {
    /// The header of a framed PDU, from its first 20 bytes. None when the
    /// header is short, the version is wrong, or the sender is
    /// little-endian (net-snmp's master is not).
    pub fn parse(bytes: &[u8]) -> (r: Option<Header>)
        ensures
            r == header_of(bytes@),
    {
        if bytes.len() < HEADER_LEN || bytes[0] != VERSION {
            return None;
        }
        let flags: u8 = bytes[2];
        if flags & FLAG_NETWORK_BYTE_ORDER == 0 {
            return None;
        }
        Some(
            Header {
                pdu_type: PduType::from_code(bytes[1]),
                flags,
                session_id: read32(bytes, 4),
                transaction_id: read32(bytes, 8),
                packet_id: read32(bytes, 12),
                payload_len: read32(bytes, 16),
            },
        )
    }
}

/// One MIB value. The IF-MIB needs exactly these.
#[derive(Debug, Clone, PartialEq, Eq)]
pub enum Value {
    Integer(i32),
    OctetString(Vec<u8>),
    Counter32(u32),
    Gauge32(u32),
    TimeTicks(u32),
    Counter64(u64),
    /// A read that fell off the end of the registered subtree.
    EndOfMibView,
    /// The OID names a column that exists but has no instance here.
    NoSuchInstance,
    /// Nothing in the MIB starts with this OID.
    NoSuchObject,
}

/// A MIB value as a mathematical value.
pub enum ValueView {
    Integer(i32),
    OctetString(Seq<u8>),
    Counter32(u32),
    Gauge32(u32),
    TimeTicks(u32),
    Counter64(u64),
    EndOfMibView,
    NoSuchInstance,
    NoSuchObject,
}

impl DeepView for Value {
    type V = ValueView;

    open spec fn deep_view(&self) -> ValueView {
        match *self {
            Value::Integer(v) => ValueView::Integer(v),
            Value::OctetString(v) => ValueView::OctetString(v@),
            Value::Counter32(v) => ValueView::Counter32(v),
            Value::Gauge32(v) => ValueView::Gauge32(v),
            Value::TimeTicks(v) => ValueView::TimeTicks(v),
            Value::Counter64(v) => ValueView::Counter64(v),
            Value::EndOfMibView => ValueView::EndOfMibView,
            Value::NoSuchInstance => ValueView::NoSuchInstance,
            Value::NoSuchObject => ValueView::NoSuchObject,
        }
    }
}

/// The type tag of a value on the wire.
pub open spec fn value_tag(v: ValueView) -> u16 {
    match v {
        ValueView::Integer(_) => 2,
        ValueView::OctetString(_) => 4,
        ValueView::Counter32(_) => 65,
        ValueView::Gauge32(_) => 66,
        ValueView::TimeTicks(_) => 67,
        ValueView::Counter64(_) => 70,
        ValueView::NoSuchObject => 128,
        ValueView::NoSuchInstance => 129,
        ValueView::EndOfMibView => 130,
    }
}

impl Value {
    pub fn tag(&self) -> (r: u16)
        ensures
            r == value_tag(self.deep_view()),
    {
        match self {
            Value::Integer(_) => 2,
            Value::OctetString(_) => 4,
            Value::Counter32(_) => 65,
            Value::Gauge32(_) => 66,
            Value::TimeTicks(_) => 67,
            Value::Counter64(_) => 70,
            Value::NoSuchObject => 128,
            Value::NoSuchInstance => 129,
            Value::EndOfMibView => 130,
        }
    }

    /// A copy of a value.
    pub fn copy(&self) -> (r: Value)
        ensures
            r.deep_view() == self.deep_view(),
    {
        match self {
            Value::Integer(v) => Value::Integer(*v),
            Value::OctetString(v) => {
                let mut bytes: Vec<u8> = Vec::new();
                push_all(&mut bytes, v.as_slice());
                assert(bytes@ =~= v@);
                Value::OctetString(bytes)
            },
            Value::Counter32(v) => Value::Counter32(*v),
            Value::Gauge32(v) => Value::Gauge32(*v),
            Value::TimeTicks(v) => Value::TimeTicks(*v),
            Value::Counter64(v) => Value::Counter64(*v),
            Value::EndOfMibView => Value::EndOfMibView,
            Value::NoSuchInstance => Value::NoSuchInstance,
            Value::NoSuchObject => Value::NoSuchObject,
        }
    }
}

/// An object identifier as its sub-identifiers.
pub type Oid = Vec<u32>;

/// One (name, value) pair.
#[derive(Debug, Clone, PartialEq, Eq)]
pub struct VarBind {
    pub name: Oid,
    pub value: Value,
}

/// A (name, value) pair as mathematical values.
pub struct BindView {
    pub name: Seq<u32>,
    pub value: ValueView,
}

impl DeepView for VarBind {
    type V = BindView;

    open spec fn deep_view(&self) -> BindView {
        BindView { name: self.name@, value: self.value.deep_view() }
    }
}

/// One GetNext/GetBulk search range: walk from `start` (inclusive when
/// `inclusive`) up to but not including `end` (empty = unbounded).
#[derive(Debug, Clone, PartialEq, Eq)]
pub struct SearchRange {
    pub start: Oid,
    pub inclusive: bool,
    pub end: Oid,
}

/// A search range as mathematical values.
pub struct RangeView {
    pub start: Seq<u32>,
    pub inclusive: bool,
    pub end: Seq<u32>,
}

impl DeepView for SearchRange {
    type V = RangeView;

    open spec fn deep_view(&self) -> RangeView {
        RangeView { start: self.start@, inclusive: self.inclusive, end: self.end@ }
    }
}

/// A decoded request from the master agent.
#[derive(Debug, Clone, PartialEq, Eq)]
pub struct Request {
    pub header: Header,
    pub ranges: Vec<SearchRange>,
    /// GetBulk only.
    pub non_repeaters: u16,
    pub max_repetitions: u16,
}

// ---------------------------------------------------------------- encode

pub fn push_u16(out: &mut Vec<u8>, value: u16)
    ensures
        final(out)@ == old(out)@ + crate::bytes::be16(value),
{
    push_be16(out, value);
}

pub fn push_u32(out: &mut Vec<u8>, value: u32)
    ensures
        final(out)@ == old(out)@ + crate::bytes::be32(value),
{
    push_be32(out, value);
}

/// Sub-identifiers in a row.
pub open spec fn subid_bytes(oid: Seq<u32>) -> Seq<u8>
    decreases oid.len(),
{
    if oid.len() == 0 {
        Seq::empty()
    } else {
        subid_bytes(oid.drop_last()) + crate::bytes::be32(oid.last())
    }
}

/// How many sub-identifiers of an OID go on the wire.
pub open spec fn oid_count(oid: Seq<u32>) -> int {
    if oid.len() <= 255 {
        oid.len() as int
    } else {
        255
    }
}

/// An OID on the wire: n_subid, prefix, inclusive, reserved, then the
/// sub-ids, of which at most 255 fit.
pub open spec fn oid_bytes(oid: Seq<u32>, inclusive: bool) -> Seq<u8> {
    seq![
        oid_count(oid) as u8,
        0u8,
        if inclusive {
            OID_INCLUDE
        } else {
            0u8
        },
        0u8,
    ] + subid_bytes(oid.take(oid_count(oid)))
}

/// Append an OID.
///
/// The `prefix` shorthand (a leading `1.3.6.1.<prefix>`) is deliberately
/// not used on the wire — spelling every sub-id out costs a few bytes
/// and removes a whole class of off-by-one.
pub fn push_oid(out: &mut Vec<u8>, oid: &[u32], inclusive: bool)
    ensures
        final(out)@ == old(out)@ + oid_bytes(oid@, inclusive),
{
    let ghost before = out@;
    let count: usize = if oid.len() <= 255 {
        oid.len()
    } else {
        255
    };
    out.push(count as u8);
    out.push(0);
    out.push(
        if inclusive {
            OID_INCLUDE
        } else {
            0
        },
    );
    out.push(0);
    let ghost start = out@;
    let ghost sent = oid@.take(count as int);
    let mut i: usize = 0;
    assert(sent.take(0) =~= Seq::<u32>::empty());
    assert(start + subid_bytes(sent.take(0)) =~= start);
    while i < count
        invariant
            i <= count <= oid@.len(),
            sent == oid@.take(count as int),
            out@ == start + subid_bytes(sent.take(i as int)),
        decreases count - i,
    {
        push_be32(out, oid[i]);
        assert(sent.take(i + 1).drop_last() =~= sent.take(i as int));
        assert(out@ =~= start + subid_bytes(sent.take(i + 1)));
        i = i + 1;
    }
    assert(sent.take(count as int) =~= sent);
    assert(out@ =~= before + oid_bytes(oid@, inclusive));
}

/// How many padding bytes bring a length to a 4-byte boundary.
pub open spec fn padding(len: nat) -> nat {
    ((4 - len % 4) % 4) as nat
}

/// A length that fits in 32 bits; the largest such number where it does
/// not.
pub open spec fn len32(len: nat) -> u32 {
    if len <= u32::MAX {
        len as u32
    } else {
        u32::MAX
    }
}

/// An octet string on the wire: length, bytes, then padding to a 4-byte
/// boundary.
pub open spec fn octets_bytes(bytes: Seq<u8>) -> Seq<u8> {
    crate::bytes::be32(len32(bytes.len())) + bytes + Seq::new(padding(bytes.len()), |i: int| 0u8)
}

fn length32(len: usize) -> (r: u32)
    ensures
        r == len32(len as nat),
{
    if len as u64 <= u32::MAX as u64 {
        len as u32
    } else {
        u32::MAX
    }
}

pub fn push_octets(out: &mut Vec<u8>, bytes: &[u8])
    ensures
        final(out)@ == old(out)@ + octets_bytes(bytes@),
{
    let ghost before = out@;
    push_be32(out, length32(bytes.len()));
    push_all(out, bytes);
    let fill: usize = (4 - bytes.len() % 4) % 4;
    push_fill(out, 0, fill);
    assert(out@ =~= before + octets_bytes(bytes@));
}

/// A value on the wire. The exception markers carry no value at all.
pub open spec fn value_bytes(v: ValueView) -> Seq<u8> {
    match v {
        ValueView::Integer(n) => crate::bytes::be32(n as u32),
        ValueView::Counter32(n) => crate::bytes::be32(n),
        ValueView::Gauge32(n) => crate::bytes::be32(n),
        ValueView::TimeTicks(n) => crate::bytes::be32(n),
        ValueView::Counter64(n) => crate::bytes::be64(n),
        ValueView::OctetString(bytes) => octets_bytes(bytes),
        ValueView::EndOfMibView => Seq::empty(),
        ValueView::NoSuchInstance => Seq::empty(),
        ValueView::NoSuchObject => Seq::empty(),
    }
}

/// A (name, value) pair on the wire: tag, reserved, name, value.
pub open spec fn bind_bytes(bind: BindView) -> Seq<u8> {
    crate::bytes::be16(value_tag(bind.value)) + crate::bytes::be16(0) + oid_bytes(bind.name, false) + value_bytes(bind.value)
}

pub fn push_varbind(out: &mut Vec<u8>, bind: &VarBind)
    ensures
        final(out)@ == old(out)@ + bind_bytes(bind.deep_view()),
{
    let ghost before = out@;
    push_be16(out, bind.value.tag());
    push_be16(out, 0);
    push_oid(out, bind.name.as_slice(), false);
    match &bind.value {
        Value::Integer(value) => push_be32(out, *value as u32),
        Value::Counter32(value) => push_be32(out, *value),
        Value::Gauge32(value) => push_be32(out, *value),
        Value::TimeTicks(value) => push_be32(out, *value),
        Value::Counter64(value) => push_be64(out, *value),
        Value::OctetString(bytes) => push_octets(out, bytes.as_slice()),
        Value::EndOfMibView => {},
        Value::NoSuchInstance => {},
        Value::NoSuchObject => {},
    }
    assert(out@ =~= before + bind_bytes(bind.deep_view()));
}

/// A run of (name, value) pairs on the wire.
pub open spec fn binds_bytes(binds: Seq<BindView>) -> Seq<u8>
    decreases binds.len(),
{
    if binds.len() == 0 {
        Seq::empty()
    } else {
        binds_bytes(binds.drop_last()) + bind_bytes(binds.last())
    }
}

/// A framed PDU: the 20-byte header followed by the payload.
pub open spec fn frame_bytes(
    pdu_type: PduType,
    session_id: u32,
    transaction_id: u32,
    packet_id: u32,
    payload: Seq<u8>,
) -> Seq<u8> {
    seq![VERSION, pdu_code(pdu_type), FLAG_NETWORK_BYTE_ORDER, 0u8] + crate::bytes::be32(session_id) + crate::bytes::be32(
        transaction_id,
    ) + crate::bytes::be32(packet_id) + crate::bytes::be32(len32(payload.len())) + payload
}

/// Frame a PDU: the 20-byte header followed by `payload`.
pub fn frame(
    pdu_type: PduType,
    session_id: u32,
    transaction_id: u32,
    packet_id: u32,
    payload: Vec<u8>,
) -> (out: Vec<u8>)
    ensures
        out@ == frame_bytes(pdu_type, session_id, transaction_id, packet_id, payload@),
{
    let mut out: Vec<u8> = Vec::new();
    out.push(VERSION);
    out.push(pdu_type.code());
    out.push(FLAG_NETWORK_BYTE_ORDER);
    out.push(0);
    push_be32(&mut out, session_id);
    push_be32(&mut out, transaction_id);
    push_be32(&mut out, packet_id);
    push_be32(&mut out, length32(payload.len()));
    push_all(&mut out, payload.as_slice());
    assert(out@ =~= frame_bytes(pdu_type, session_id, transaction_id, packet_id, payload@));
    out
}

/// The payload of an `agentx-Open-PDU`: session timeout, the subagent's id
/// OID, and its description.
pub open spec fn open_payload(id: Seq<u32>, description: Seq<u8>) -> Seq<u8> {
    seq![5u8, 0u8, 0u8, 0u8] + oid_bytes(id, false) + octets_bytes(description)
}

/// An `agentx-Open-PDU`.
pub fn open_pdu(packet_id: u32, id: &[u32], description: &str) -> (out: Vec<u8>)
    ensures
        out@ == frame_bytes(
            PduType::Open,
            0,
            0,
            packet_id,
            open_payload(id@, vstd::utf8::encode_utf8(description@)),
        ),
{
    let mut payload: Vec<u8> = Vec::new();
    // Timeout in seconds for requests on this session.
    payload.push(5);
    payload.push(0);
    payload.push(0);
    payload.push(0);
    push_oid(&mut payload, id, false);
    push_octets(&mut payload, description.as_bytes());
    assert(payload@ =~= open_payload(id@, vstd::utf8::encode_utf8(description@)));
    frame(PduType::Open, 0, 0, packet_id, payload)
}

/// The payload of an `agentx-Register-PDU`: timeout (0 = the session
/// default), priority, range_subid, reserved, then the subtree.
pub open spec fn register_payload(subtree: Seq<u32>, priority: u8) -> Seq<u8> {
    seq![0u8, priority, 0u8, 0u8] + oid_bytes(subtree, false)
}

/// An `agentx-Register-PDU` for one subtree. A lower `priority` wins
/// over a higher one, which is how the subagent's IF-MIB takes
/// precedence over the master's own built-in handlers.
pub fn register_pdu(session_id: u32, packet_id: u32, subtree: &[u32], priority: u8) -> (out: Vec<
    u8,
>)
    ensures
        out@ == frame_bytes(
            PduType::Register,
            session_id,
            0,
            packet_id,
            register_payload(subtree@, priority),
        ),
{
    let mut payload: Vec<u8> = Vec::new();
    payload.push(0);
    payload.push(priority);
    payload.push(0);
    payload.push(0);
    push_oid(&mut payload, subtree, false);
    assert(payload@ =~= register_payload(subtree@, priority));
    frame(PduType::Register, session_id, 0, packet_id, payload)
}

/// The payload of an `agentx-Response-PDU`. sysUpTime is the master's to
/// fill in for a subagent response.
pub open spec fn response_payload(error: u16, index: u16, binds: Seq<BindView>) -> Seq<u8> {
    crate::bytes::be32(0) + crate::bytes::be16(error) + crate::bytes::be16(index) + binds_bytes(binds)
}

/// An `agentx-Response-PDU` carrying `binds`.
pub fn response_pdu(header: &Header, error: u16, index: u16, binds: &Vec<VarBind>) -> (out: Vec<
    u8,
>)
    ensures
        out@ == frame_bytes(
            PduType::Response,
            header.session_id,
            header.transaction_id,
            header.packet_id,
            response_payload(error, index, binds.deep_view()),
        ),
{
    let mut payload: Vec<u8> = Vec::new();
    push_be32(&mut payload, 0);
    push_be16(&mut payload, error);
    push_be16(&mut payload, index);
    let ghost start = payload@;
    let ghost all = binds.deep_view();
    let mut i: usize = 0;
    assert(all.take(0) =~= Seq::<BindView>::empty());
    assert(start + binds_bytes(all.take(0)) =~= start);
    while i < binds.len()
        invariant
            i <= binds@.len(),
            all == binds.deep_view(),
            payload@ == start + binds_bytes(all.take(i as int)),
        decreases binds@.len() - i,
    {
        push_varbind(&mut payload, &binds[i]);
        assert(all.take(i + 1).drop_last() =~= all.take(i as int));
        assert(all.take(i + 1).last() == binds@[i as int].deep_view());
        assert(payload@ =~= start + binds_bytes(all.take(i + 1)));
        i = i + 1;
    }
    assert(all.take(i as int) =~= all);
    assert(payload@ =~= response_payload(error, index, all));
    frame(
        PduType::Response,
        header.session_id,
        header.transaction_id,
        header.packet_id,
        payload,
    )
}

// ---------------------------------------------------------------- decode

/// What a non-zero prefix stands for: a leading 1.3.6.1.<prefix>.
pub open spec fn prefix_subids(prefix: u8) -> Seq<u32> {
    if prefix == 0 {
        Seq::empty()
    } else {
        seq![1u32, 3u32, 6u32, 1u32, prefix as u32]
    }
}

/// The OID at index `at`, whether its inclusive flag is set, and the index
/// behind it.
pub open spec fn oid_at(s: Seq<u8>, at: int) -> Option<(Seq<u32>, bool, int)> {
    if at + 4 > s.len() || at + 4 + 4 * s[at] > s.len() {
        None
    } else {
        Some(
            (
                prefix_subids(s[at + 1]) + Seq::new(
                    s[at] as nat,
                    |i: int| crate::bytes::word32(s, at + 4 + 4 * i),
                ),
                s[at + 2] != 0,
                at + 4 + 4 * s[at],
            ),
        )
    }
}

/// The search ranges from index `at` to the end; none if the bytes end
/// within one.
pub open spec fn ranges_at(s: Seq<u8>, at: int) -> Option<Seq<RangeView>>
    decreases s.len() - at,
{
    if at >= s.len() {
        Some(Seq::empty())
    } else {
        match oid_at(s, at) {
            None => None,
            Some((start, inclusive, mid)) => match oid_at(s, mid) {
                None => None,
                Some((end, _, next)) => match ranges_at(s, next) {
                    None => None,
                    Some(rest) => Some(seq![RangeView { start, inclusive, end }] + rest),
                },
            },
        }
    }
}

fn read_oid(bytes: &[u8], at: usize) -> (r: Option<(Oid, bool, usize)>)
    requires
        at <= bytes@.len(),
    ensures
        match r {
            Some((oid, inclusive, next)) => oid_at(bytes@, at as int) == Some(
                (oid@, inclusive, next as int),
            ) && at < next <= bytes@.len(),
            None => oid_at(bytes@, at as int) is None,
        },
{
    if bytes.len() - at < 4 {
        return None;
    }
    let count: usize = bytes[at] as usize;
    let prefix: u8 = bytes[at + 1];
    let inclusive = bytes[at + 2] != 0;
    if bytes.len() - at - 4 < 4 * count {
        return None;
    }
    let mut oid: Vec<u32> = Vec::new();
    if prefix != 0 {
        oid.push(1);
        oid.push(3);
        oid.push(6);
        oid.push(1);
        oid.push(prefix as u32);
    }
    assert(oid@ =~= prefix_subids(prefix));
    let ghost lead = oid@;
    let ghost subs = Seq::new(count as nat, |i: int| crate::bytes::word32(bytes@, at + 4 + 4 * i));
    let mut i: usize = 0;
    assert(lead + subs.take(0) =~= lead);
    while i < count
        invariant
            i <= count <= 255,
            at + 4 + 4 * count <= bytes.len(),
            subs == Seq::new(count as nat, |i: int| crate::bytes::word32(bytes@, at + 4 + 4 * i)),
            oid@ == lead + subs.take(i as int),
        decreases count - i,
    {
        oid.push(read32(bytes, at + 4 + 4 * i));
        assert(lead + subs.take(i + 1) =~= (lead + subs.take(i as int)).push(subs[i as int]));
        i = i + 1;
    }
    assert(subs.take(count as int) =~= subs);
    Some((oid, inclusive, at + 4 + 4 * count))
}

/// Where the search ranges of a payload begin, with the repeat counts of a
/// GetBulk.
pub open spec fn repeat_counts(bulk: bool, s: Seq<u8>) -> Option<(u16, u16, int)> {
    if !bulk {
        Some((0u16, 0u16, 0int))
    } else if s.len() < 4 {
        None
    } else {
        Some((crate::bytes::word16(s, 0), crate::bytes::word16(s, 2), 4int))
    }
}

/// Decode a retrieval PDU's payload into search ranges.
pub fn parse_request(header: Header, payload: &[u8]) -> (r: Option<Request>)
    ensures
        match (r, repeat_counts(header.pdu_type == PduType::GetBulk, payload@)) {
            (Some(req), Some((non_repeaters, max_repetitions, at))) => req.header == header
                && req.non_repeaters == non_repeaters && req.max_repetitions == max_repetitions
                && ranges_at(payload@, at) == Some(req.ranges.deep_view()),
            (None, Some((_, _, at))) => ranges_at(payload@, at) is None,
            (Some(_), None) => false,
            (None, None) => true,
        },
{
    let mut at: usize = 0;
    let mut non_repeaters: u16 = 0;
    let mut max_repetitions: u16 = 0;
    if header.pdu_type == PduType::GetBulk {
        if payload.len() < 4 {
            return None;
        }
        non_repeaters = read16(payload, 0);
        max_repetitions = read16(payload, 2);
        at = 4;
    }
    let ghost begin = at as int;
    let mut ranges: Vec<SearchRange> = Vec::new();
    assert(match ranges_at(payload@, at as int) {
        None => true,
        Some(rest) => ranges.deep_view() + rest =~= rest,
    });
    while at < payload.len()
        invariant
            at <= payload@.len(),
            repeat_counts(header.pdu_type == PduType::GetBulk, payload@) == Some(
                (non_repeaters, max_repetitions, begin),
            ),
            match ranges_at(payload@, at as int) {
                None => ranges_at(payload@, begin) is None,
                Some(rest) => ranges_at(payload@, begin) == Some(ranges.deep_view() + rest),
            },
        decreases payload@.len() - at,
    {
        let ghost done = ranges.deep_view();
        match read_oid(payload, at) {
            None => {
                return None;
            },
            Some((start, inclusive, mid)) => match read_oid(payload, mid) {
                None => {
                    return None;
                },
                Some((end, _, next)) => {
                    let range = SearchRange { start, inclusive, end };
                    ranges.push(range);
                    proof {
                        assert(ranges.deep_view() =~= done.push(range.deep_view()));
                        if let Some(rest) = ranges_at(payload@, next as int) {
                            assert(done + (seq![range.deep_view()] + rest) =~= ranges.deep_view()
                                + rest);
                        }
                    }
                    at = next;
                },
            },
        }
    }
    assert(ranges.deep_view() + Seq::<RangeView>::empty() =~= ranges.deep_view());
    Some(Request { header, ranges, non_repeaters, max_repetitions })
}

/// The session id a master's Open response carries (its header's
/// session field), plus the response's error code.
pub fn parse_response(header: &Header, payload: &[u8]) -> (r: Option<(u32, u16)>)
    ensures
        r == (if payload@.len() < 6 {
            None::<(u32, u16)>
        } else {
            Some((header.session_id, crate::bytes::word16(payload@, 4)))
        }),
{
    if payload.len() < 6 {
        return None;
    }
    Some((header.session_id, read16(payload, 4)))
}

/// Was this registration refused because the subtree is already ours?
/// (Reconnects and duplicate registrations are not fatal.)
pub fn is_duplicate_registration(error: u16) -> (r: bool)
    ensures
        r == (error == 263),
{
    error == 263
}

// ------------------------------------------------------------------ laws

/// Framing and header parsing are inverse: the header of a framed PDU
/// carries the PDU type, the ids and the payload length back, and the
/// payload stands behind it.
pub proof fn lemma_frame_round_trip(
    pdu_type: PduType,
    session_id: u32,
    transaction_id: u32,
    packet_id: u32,
    payload: Seq<u8>,
)
    ensures
        header_of(frame_bytes(pdu_type, session_id, transaction_id, packet_id, payload)) == Some(
            Header {
                pdu_type: pdu_of(pdu_code(pdu_type)),
                flags: FLAG_NETWORK_BYTE_ORDER,
                session_id,
                transaction_id,
                packet_id,
                payload_len: len32(payload.len()),
            },
        ),
        frame_bytes(pdu_type, session_id, transaction_id, packet_id, payload).skip(
            HEADER_LEN as int,
        ) == payload,
{
    let s = frame_bytes(pdu_type, session_id, transaction_id, packet_id, payload);
    assert(0x10u8 & 0x10u8 == 0x10u8) by (bit_vector);
    assert(s.subrange(4, 8) =~= crate::bytes::be32(session_id));
    assert(s.subrange(8, 12) =~= crate::bytes::be32(transaction_id));
    assert(s.subrange(12, 16) =~= crate::bytes::be32(packet_id));
    assert(s.subrange(16, 20) =~= crate::bytes::be32(len32(payload.len())));
    crate::bytes::lemma_word32(s, 4, session_id);
    crate::bytes::lemma_word32(s, 8, transaction_id);
    crate::bytes::lemma_word32(s, 12, packet_id);
    crate::bytes::lemma_word32(s, 16, len32(payload.len()));
    assert(s.skip(20) =~= payload);
}

/// Sub-identifiers take four bytes each and read back in place.
pub proof fn lemma_subid_bytes(oid: Seq<u32>)
    ensures
        subid_bytes(oid).len() == 4 * oid.len(),
        forall|i: int|
            0 <= i < oid.len() ==> #[trigger] subid_bytes(oid).subrange(4 * i, 4 * i + 4) == crate::bytes::be32(
                oid[i],
            ),
    decreases oid.len(),
{
    if oid.len() > 0 {
        let front = oid.drop_last();
        lemma_subid_bytes(front);
        let s = subid_bytes(oid);
        assert forall|i: int| 0 <= i < oid.len() implies #[trigger] s.subrange(4 * i, 4 * i + 4)
            == crate::bytes::be32(oid[i]) by {
            if i < front.len() {
                assert(s.subrange(4 * i, 4 * i + 4) =~= subid_bytes(front).subrange(
                    4 * i,
                    4 * i + 4,
                ));
            } else {
                assert(s.subrange(4 * i, 4 * i + 4) =~= crate::bytes::be32(oid.last()));
            }
        }
    }
}

/// An OID of at most 255 sub-identifiers reads back from the wire with its
/// inclusive flag, wherever it stands.
pub proof fn lemma_oid_round_trip(front: Seq<u8>, oid: Seq<u32>, inclusive: bool, rest: Seq<u8>)
    requires
        oid.len() <= 255,
    ensures
        oid_at(front + oid_bytes(oid, inclusive) + rest, front.len() as int) == Some(
            (oid, inclusive, (front.len() + 4 + 4 * oid.len()) as int),
        ),
        oid_bytes(oid, inclusive).len() == 4 + 4 * oid.len(),
{
    let at = front.len() as int;
    let mid = oid_bytes(oid, inclusive);
    let s = front + mid + rest;
    assert(oid.take(oid.len() as int) =~= oid);
    lemma_subid_bytes(oid);
    assert(s[at] == mid[0] && s[at + 1] == mid[1] && s[at + 2] == mid[2]);
    let subs = Seq::new(oid.len(), |i: int| crate::bytes::word32(s, at + 4 + 4 * i));
    assert forall|i: int| 0 <= i < oid.len() implies subs[i] == oid[i] by {
        assert(s.subrange(at + 4 + 4 * i, at + 4 + 4 * i + 4) =~= subid_bytes(oid).subrange(
            4 * i,
            4 * i + 4,
        ));
        crate::bytes::lemma_word32(s, at + 4 + 4 * i, oid[i]);
    }
    assert(Seq::<u32>::empty() + subs =~= oid);
}

/// A run of search ranges on the wire.
pub open spec fn range_bytes(ranges: Seq<RangeView>) -> Seq<u8>
    decreases ranges.len(),
{
    if ranges.len() == 0 {
        Seq::empty()
    } else {
        oid_bytes(ranges[0].start, ranges[0].inclusive) + oid_bytes(ranges[0].end, false)
            + range_bytes(ranges.skip(1))
    }
}

proof fn lemma_regroup(front: Seq<u8>, a: Seq<u8>, b: Seq<u8>, tail: Seq<u8>)
    ensures
        front + (a + b + tail) == front + a + (b + tail),
        front + (a + b + tail) == front + a + b + tail,
{
    assert(front + (a + b + tail) =~= front + a + (b + tail));
    assert(front + (a + b + tail) =~= front + a + b + tail);
}

/// A range in front of others.
proof fn lemma_ranges_step(
    s: Seq<u8>,
    at: int,
    range: RangeView,
    mid: int,
    flag: bool,
    next: int,
    rest: Seq<RangeView>,
)
    requires
        0 <= at < s.len(),
        oid_at(s, at) == Some((range.start, range.inclusive, mid)),
        oid_at(s, mid) == Some((range.end, flag, next)),
        ranges_at(s, next) == Some(rest),
    ensures
        ranges_at(s, at) == Some(seq![range] + rest),
{
}

/// The first range of a run reads back, and where the next one starts.
proof fn lemma_first_range(front: Seq<u8>, r: RangeView, tail: Seq<u8>)
    requires
        r.start.len() <= 255,
        r.end.len() <= 255,
    ensures
        ({
            let a = oid_bytes(r.start, r.inclusive);
            let b = oid_bytes(r.end, false);
            let s = front + (a + b + tail);
            &&& a.len() > 0
            &&& s == front + a + b + tail
            &&& oid_at(s, front.len() as int) == Some(
                (r.start, r.inclusive, (front + a).len() as int),
            )
            &&& oid_at(s, (front + a).len() as int) == Some(
                (r.end, false, (front + a + b).len() as int),
            )
        }),
{
    let a = oid_bytes(r.start, r.inclusive);
    let b = oid_bytes(r.end, false);
    lemma_regroup(front, a, b, tail);
    lemma_oid_round_trip(front, r.start, r.inclusive, b + tail);
    lemma_oid_round_trip(front + a, r.end, false, tail);
}

/// Search ranges written to the wire read back as they were.
pub proof fn lemma_ranges_round_trip(front: Seq<u8>, ranges: Seq<RangeView>)
    requires
        forall|i: int|
            0 <= i < ranges.len() ==> (#[trigger] ranges[i]).start.len() <= 255
                && ranges[i].end.len() <= 255,
    ensures
        ranges_at(front + range_bytes(ranges), front.len() as int) == Some(ranges),
    decreases ranges.len(),
{
    let s = front + range_bytes(ranges);
    if ranges.len() == 0 {
        assert(s =~= front);
        assert(ranges =~= Seq::<RangeView>::empty());
    } else {
        let r = ranges[0];
        let a = oid_bytes(r.start, r.inclusive);
        let b = oid_bytes(r.end, false);
        let tail = range_bytes(ranges.skip(1));
        lemma_first_range(front, r, tail);
        assert forall|i: int| 0 <= i < ranges.skip(1).len() implies (
        #[trigger] ranges.skip(1)[i]).start.len() <= 255 && ranges.skip(1)[i].end.len() <= 255 by {
            assert(ranges.skip(1)[i] == ranges[i + 1]);
        }
        lemma_ranges_round_trip(front + a + b, ranges.skip(1));
        lemma_ranges_step(
            s,
            front.len() as int,
            r,
            (front + a).len() as int,
            false,
            (front + a + b).len() as int,
            ranges.skip(1),
        );
        assert(seq![r] + ranges.skip(1) =~= ranges);
    }
}

/// A (name, value) pair takes a multiple of four bytes: two words of
/// header, the name, and the value at its own width.
pub proof fn lemma_bind_width(bind: BindView)
    requires
        bind.name.len() <= 255,
    ensures
        bind_bytes(bind).len() == 8 + 4 * bind.name.len() + value_bytes(bind.value).len(),
        value_bytes(bind.value).len() == (match bind.value {
            ValueView::Counter64(_) => 8nat,
            ValueView::OctetString(bytes) => (4 + bytes.len() + padding(bytes.len())) as nat,
            ValueView::EndOfMibView => 0,
            ValueView::NoSuchInstance => 0,
            ValueView::NoSuchObject => 0,
            _ => 4,
        }),
        bind_bytes(bind).len() % 4 == 0,
{
    assert(bind.name.take(bind.name.len() as int) =~= bind.name);
    lemma_subid_bytes(bind.name);
}

/// A response echoes the ids of the request it answers, and its error code
/// reads back.
pub proof fn lemma_response_echoes(
    header: Header,
    error: u16,
    index: u16,
    binds: Seq<BindView>,
)
    ensures
        ({
            let payload = response_payload(error, index, binds);
            let framed = frame_bytes(
                PduType::Response,
                header.session_id,
                header.transaction_id,
                header.packet_id,
                payload,
            );
            &&& header_of(framed) matches Some(h) && h.pdu_type == PduType::Response
                && h.session_id == header.session_id && h.transaction_id == header.transaction_id
                && h.packet_id == header.packet_id
            &&& framed.skip(HEADER_LEN as int) == payload
            &&& payload.len() >= 6
            &&& crate::bytes::word16(payload, 4) == error
        }),
{
    let payload = response_payload(error, index, binds);
    lemma_frame_round_trip(
        PduType::Response,
        header.session_id,
        header.transaction_id,
        header.packet_id,
        payload,
    );
    assert(payload.subrange(4, 6) =~= crate::bytes::be16(error));
    crate::bytes::lemma_word16(payload, 4, error);
}

} // verus!
