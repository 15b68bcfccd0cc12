//! Laws of AgentX on the wire.

use vstd::prelude::*;

use crate::agentx::{BindView, PduType, ValueView};

verus! {

/// Four bytes, high byte first, say a number.
pub open spec fn number(b: Seq<u8>, at: int) -> int {
    b[at] * 0x100_0000 + b[at + 1] * 0x1_0000 + b[at + 2] * 0x100 + b[at + 3]
}

proof fn lemma_number(b: Seq<u8>, at: int, v: u32)
    requires
        0 <= at,
        at + 4 <= b.len(),
        b.subrange(at, at + 4) == crate::bytes::be32(v),
    ensures
        number(b, at) == v,
{
    let s = b.subrange(at, at + 4);
    assert(s[0] == b[at] && s[1] == b[at + 1] && s[2] == b[at + 2] && s[3] == b[at + 3]);
}

/// A PDU on the wire: version 1, its type, network byte order, the session,
/// the transaction, the packet, the payload's length, the payload.
pub proof fn lemma_frame_layout(
    pdu_type: PduType,
    session_id: u32,
    transaction_id: u32,
    packet_id: u32,
    payload: Seq<u8>,
)
    requires
        payload.len() <= u32::MAX,
    ensures
        ({
            let b = crate::agentx::frame_bytes(
                pdu_type,
                session_id,
                transaction_id,
                packet_id,
                payload,
            );
            &&& b.len() == 20 + payload.len()
            &&& b[0] == 1
            &&& b[1] == crate::agentx::pdu_code(pdu_type)
            &&& b[2] == 0x10
            &&& b[3] == 0
            &&& number(b, 4) == session_id
            &&& number(b, 8) == transaction_id
            &&& number(b, 12) == packet_id
            &&& number(b, 16) == payload.len()
            &&& b.skip(20) == payload
        }),
{
    let b = crate::agentx::frame_bytes(pdu_type, session_id, transaction_id, packet_id, payload);
    assert(b.subrange(4, 8) =~= crate::bytes::be32(session_id));
    assert(b.subrange(8, 12) =~= crate::bytes::be32(transaction_id));
    assert(b.subrange(12, 16) =~= crate::bytes::be32(packet_id));
    assert(b.subrange(16, 20) =~= crate::bytes::be32(payload.len() as u32));
    lemma_number(b, 4, session_id);
    lemma_number(b, 8, transaction_id);
    lemma_number(b, 12, packet_id);
    lemma_number(b, 16, payload.len() as u32);
    assert(b.skip(20) =~= payload);
}

/// A header is read where it stands: version 1 in network byte order, each
/// field at its place.
pub proof fn lemma_headers_read(b: Seq<u8>)
    ensures
        b.len() < 20 || b[0] != 1 ==> crate::agentx::header_of(b) is None,
        b.len() >= 20 && b[2] & 0x10 == 0 ==> crate::agentx::header_of(b) is None,
        b.len() >= 20 && b[0] == 1 && b[2] & 0x10 != 0 ==> (crate::agentx::header_of(b) matches Some(
            h,
        ) && {
            &&& h.pdu_type == crate::agentx::pdu_of(b[1])
            &&& h.flags == b[2]
            &&& h.session_id == number(b, 4)
            &&& h.transaction_id == number(b, 8)
            &&& h.packet_id == number(b, 12)
            &&& h.payload_len == number(b, 16)
        }),
{
}

/// The codes of the PDU types.
pub proof fn lemma_pdu_codes(code: u8)
    ensures
        crate::agentx::pdu_of(code) == PduType::Open <==> code == 1,
        crate::agentx::pdu_of(code) == PduType::Close <==> code == 2,
        crate::agentx::pdu_of(code) == PduType::Register <==> code == 3,
        crate::agentx::pdu_of(code) == PduType::Unregister <==> code == 4,
        crate::agentx::pdu_of(code) == PduType::Get <==> code == 5,
        crate::agentx::pdu_of(code) == PduType::GetNext <==> code == 6,
        crate::agentx::pdu_of(code) == PduType::GetBulk <==> code == 7,
        crate::agentx::pdu_of(code) == PduType::TestSet <==> code == 8,
        crate::agentx::pdu_of(code) == PduType::CommitSet <==> code == 9,
        crate::agentx::pdu_of(code) == PduType::UndoSet <==> code == 10,
        crate::agentx::pdu_of(code) == PduType::CleanupSet <==> code == 11,
        crate::agentx::pdu_of(code) == PduType::Notify <==> code == 12,
        crate::agentx::pdu_of(code) == PduType::Ping <==> code == 13,
        crate::agentx::pdu_of(code) == PduType::Response <==> code == 18,
        crate::agentx::pdu_code(crate::agentx::pdu_of(code)) == code,
{
}

/// An object identifier on the wire: how many numbers, no prefix, whether it
/// is included, then the numbers.
pub proof fn lemma_oid_layout(oid: Seq<u32>, inclusive: bool)
    requires
        oid.len() <= 255,
    ensures
        ({
            let b = crate::agentx::oid_bytes(oid, inclusive);
            &&& b.len() == 4 + 4 * oid.len()
            &&& b[0] == oid.len()
            &&& b[1] == 0
            &&& b[2] == (if inclusive {
                1u8
            } else {
                0u8
            })
            &&& b[3] == 0
            &&& forall|i: int| 0 <= i < oid.len() ==> number(b, 4 + 4 * i) == #[trigger] oid[i]
        }),
{
    let b = crate::agentx::oid_bytes(oid, inclusive);
    assert(oid.take(oid.len() as int) =~= oid);
    crate::agentx::lemma_subid_bytes(oid);
    let s = crate::agentx::subid_bytes(oid);
    assert forall|i: int| 0 <= i < oid.len() implies number(b, 4 + 4 * i) == #[trigger] oid[i] by {
        assert(s.subrange(4 * i, 4 * i + 4) == crate::bytes::be32(oid[i]));
        assert(b.subrange(4 + 4 * i, 4 + 4 * i + 4) =~= s.subrange(4 * i, 4 * i + 4));
        lemma_number(b, 4 + 4 * i, oid[i]);
    }
}

/// An object identifier is read with the internet prefix where a prefix
/// number is given, and only where all of it is there.
pub proof fn lemma_oids_read(b: Seq<u8>, at: int)
    requires
        0 <= at,
    ensures
        b.len() < at + 4 ==> crate::agentx::oid_at(b, at) is None,
        b.len() >= at + 4 && b.len() < at + 4 + 4 * b[at] ==> crate::agentx::oid_at(b, at) is None,
        b.len() >= at + 4 && b.len() >= at + 4 + 4 * b[at] ==> (crate::agentx::oid_at(
            b,
            at,
        ) matches Some(r) && {
            let front: int = if b[at + 1] == 0 {
                0
            } else {
                5
            };
            &&& r.0.len() == front + b[at]
            &&& b[at + 1] != 0 ==> r.0[0] == 1 && r.0[1] == 3 && r.0[2] == 6 && r.0[3] == 1
                && r.0[4] == b[at + 1]
            &&& forall|i: int|
                0 <= i < b[at] ==> #[trigger] r.0[front + i] == number(b, at + 4 + 4 * i)
            &&& r.1 <==> b[at + 2] != 0
            &&& r.2 == at + 4 + 4 * b[at]
        }),
{
    if b.len() >= at + 4 && b.len() >= at + 4 + 4 * b[at] {
        let r = crate::agentx::oid_at(b, at)->0;
        let front: int = if b[at + 1] == 0 {
            0
        } else {
            5
        };
        assert forall|i: int| 0 <= i < b[at] implies #[trigger] r.0[front + i] == number(
            b,
            at + 4 + 4 * i,
        ) by {
            assert(r.0[front + i] == crate::bytes::word32(b, at + 4 + 4 * i));
        }
    }
}

/// The types of values on the wire, and their contents: a number is four
/// bytes, a large counter eight, a string its length, its bytes and zeros up to
/// a multiple of four; an exception has no contents.
pub proof fn lemma_value_layout(v: ValueView)
    ensures
        ({
            let b = crate::agentx::value_bytes(v);
            let t = crate::agentx::value_tag(v);
            &&& v matches ValueView::Integer(n) ==> t == 2 && b == crate::bytes::be32(n as u32)
            &&& v matches ValueView::OctetString(s) ==> t == 4 && (s.len() <= 0xffff_fff0 ==> {
                &&& b.len() % 4 == 0
                &&& 4 + s.len() <= b.len() < 8 + s.len()
                &&& number(b, 0) == s.len()
                &&& b.subrange(4, 4 + s.len() as int) == s
                &&& forall|i: int| 4 + s.len() <= i < b.len() ==> #[trigger] b[i] == 0
            })
            &&& v matches ValueView::Counter32(n) ==> t == 65 && b.len() == 4 && number(b, 0) == n
            &&& v matches ValueView::Gauge32(n) ==> t == 66 && b.len() == 4 && number(b, 0) == n
            &&& v matches ValueView::TimeTicks(n) ==> t == 67 && b.len() == 4 && number(b, 0) == n
            &&& v matches ValueView::Counter64(n) ==> t == 70 && b.len() == 8 && number(b, 0)
                * 0x1_0000_0000 + number(b, 4) == n
            &&& v == ValueView::NoSuchObject ==> t == 128 && b.len() == 0
            &&& v == ValueView::NoSuchInstance ==> t == 129 && b.len() == 0
            &&& v == ValueView::EndOfMibView ==> t == 130 && b.len() == 0
        }),
{
    let b = crate::agentx::value_bytes(v);
    match v {
        ValueView::Counter32(n) | ValueView::Gauge32(n) | ValueView::TimeTicks(n) => {
            assert(b.subrange(0, 4) =~= crate::bytes::be32(n));
            lemma_number(b, 0, n);
        },
        ValueView::Counter64(n) => {
            let hi = (n / 0x1_0000_0000) as u32;
            let lo = (n % 0x1_0000_0000) as u32;
            assert(b.subrange(0, 4) =~= crate::bytes::be32(hi));
            assert(b.subrange(4, 8) =~= crate::bytes::be32(lo));
            lemma_number(b, 0, hi);
            lemma_number(b, 4, lo);
        },
        ValueView::OctetString(s) => {
            if s.len() <= 0xffff_fff0 {
                assert(b.subrange(0, 4) =~= crate::bytes::be32(s.len() as u32));
                lemma_number(b, 0, s.len() as u32);
                assert(b.subrange(4, 4 + s.len() as int) =~= s);
            }
        },
        _ => {},
    }
}

/// A binding on the wire: its value's type, two zero bytes, its name, its
/// value's contents.
pub proof fn lemma_bind_layout(bind: BindView)
    ensures
        ({
            let b = crate::agentx::bind_bytes(bind);
            let t = crate::agentx::value_tag(bind.value);
            &&& b[0] == t / 256
            &&& b[1] == t % 256
            &&& b[2] == 0
            &&& b[3] == 0
            &&& b.skip(4) == crate::agentx::oid_bytes(bind.name, false)
                + crate::agentx::value_bytes(bind.value)
        }),
{
    let b = crate::agentx::bind_bytes(bind);
    assert(b.skip(4) =~= crate::agentx::oid_bytes(bind.name, false) + crate::agentx::value_bytes(
        bind.value,
    ));
}

/// A response: four bytes of uptime, the error, the index, then the bindings
/// one behind the other.
pub proof fn lemma_response_layout(error: u16, index: u16, binds: Seq<BindView>, bind: BindView)
    ensures
        ({
            let b = crate::agentx::response_payload(error, index, binds);
            &&& number(b, 0) == 0
            &&& b[4] * 256 + b[5] == error
            &&& b[6] * 256 + b[7] == index
            &&& binds.len() == 0 ==> b.len() == 8
            &&& crate::agentx::response_payload(error, index, binds.push(bind)) == b
                + crate::agentx::bind_bytes(bind)
        }),
{
    let b = crate::agentx::response_payload(error, index, binds);
    assert(b[4] == (error / 256) as u8 && b[5] == (error % 256) as u8);
    assert(b[6] == (index / 256) as u8 && b[7] == (index % 256) as u8);
    assert(binds.push(bind).drop_last() =~= binds);
    assert(crate::agentx::response_payload(error, index, binds.push(bind)) =~= b
        + crate::agentx::bind_bytes(bind));
}

/// Opening a session names a timeout of five seconds, who opens and why;
/// registering names the priority and the subtree.
pub proof fn lemma_open_and_register_layout(id: Seq<u32>, text: Seq<u8>, priority: u8)
    ensures
        crate::agentx::open_payload(id, text) == seq![5u8, 0u8, 0u8, 0u8]
            + crate::agentx::oid_bytes(id, false) + crate::agentx::value_bytes(
            ValueView::OctetString(text),
        ),
        crate::agentx::register_payload(id, priority) == seq![0u8, priority, 0u8, 0u8]
            + crate::agentx::oid_bytes(id, false),
{
}

/// Only a bulk request starts with its two counts.
pub proof fn lemma_counts_lead_bulk(b: Seq<u8>)
    ensures
        crate::agentx::repeat_counts(false, b) == Some((0u16, 0u16, 0int)),
        b.len() < 4 ==> crate::agentx::repeat_counts(true, b) is None,
        b.len() >= 4 ==> (crate::agentx::repeat_counts(true, b) matches Some(r) && r.0 == b[0] * 256
            + b[1] && r.1 == b[2] * 256 + b[3] && r.2 == 4),
{
}

} // verus!
