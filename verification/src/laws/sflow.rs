//! Laws of the sFlow exporter.

use vstd::prelude::*;

use crate::sflow::{
    Config, DatagramModel, EngineModel, InterfaceCounters, RecordModel, Sample,
};

verus! {

/// Numbers on the wire: four bytes each, high byte first.
#[verifier::opaque]
pub open spec fn wire(words: Seq<u32>) -> Seq<u8>
    decreases words.len(),
{
    if words.len() == 0 {
        Seq::empty()
    } else {
        wire(words.drop_last()) + crate::bytes::be32(words.last())
    }
}

/// Four bytes, high byte first, say a number.
pub open spec fn number(b: Seq<u8>, at: int) -> int {
    b[at] * 0x100_0000 + b[at + 1] * 0x1_0000 + b[at + 2] * 0x100 + b[at + 3]
}

/// Eight bytes, high byte first, say a number.
pub open spec fn long_number(b: Seq<u8>, at: int) -> int {
    number(b, at) * 0x1_0000_0000 + number(b, at + 4)
}

proof fn lemma_push(words: Seq<u32>, w: u32)
    ensures
        wire(words.push(w)) == wire(words) + crate::bytes::be32(w),
{
    reveal(wire);
    assert(words.push(w).drop_last() =~= words);
}

proof fn lemma_wire(words: Seq<u32>)
    ensures
        wire(words).len() == 4 * words.len(),
        forall|i: int|
            #![trigger words[i]]
            0 <= i < words.len() ==> number(wire(words), 4 * i) == words[i],
    decreases words.len(),
{
    reveal(wire);
    if words.len() > 0 {
        let w = words.last();
        lemma_wire(words.drop_last());
        assert forall|i: int|
            #![trigger words[i]]
            0 <= i < words.len() implies number(wire(words), 4 * i) == words[i] by {
            if i < words.len() - 1 {
                assert(words.drop_last()[i] == words[i]);
                assert(number(wire(words.drop_last()), 4 * i) == words[i]);
            }
        }
    }
}

proof fn lemma_join(a: Seq<u32>, b: Seq<u32>)
    ensures
        wire(a + b) == wire(a) + wire(b),
    decreases b.len(),
{
    reveal(wire);
    if b.len() == 0 {
        assert(a + b =~= a);
        assert(wire(a) + wire(b) =~= wire(a));
    } else {
        lemma_join(a, b.drop_last());
        assert((a + b).drop_last() =~= a + b.drop_last());
        assert(wire(a + b) =~= wire(a) + wire(b));
    }
}

proof fn lemma_front(words: Seq<u32>, rest: Seq<u8>)
    ensures
        (wire(words) + rest).len() == 4 * words.len() + rest.len(),
        (wire(words) + rest).skip(4 * words.len() as int) == rest,
        forall|i: int|
            #![trigger words[i]]
            0 <= i < words.len() ==> number(wire(words) + rest, 4 * i) == words[i],
{
    lemma_wire(words);
    assert((wire(words) + rest).skip(4 * words.len() as int) =~= rest);
    assert forall|i: int|
        #![trigger words[i]]
        0 <= i < words.len() implies number(wire(words) + rest, 4 * i) == words[i] by {
        assert(number(wire(words), 4 * i) == words[i]);
    }
}

proof fn lemma_long(front: Seq<u32>, v: u64)
    ensures
        wire(front.push((v / 0x1_0000_0000) as u32).push((v % 0x1_0000_0000) as u32)) == wire(front)
            + crate::bytes::be64(v),
{
    lemma_push(front, (v / 0x1_0000_0000) as u32);
    lemma_push(front.push((v / 0x1_0000_0000) as u32), (v % 0x1_0000_0000) as u32);
    assert(wire(front.push((v / 0x1_0000_0000) as u32).push((v % 0x1_0000_0000) as u32)) =~= wire(
        front,
    ) + crate::bytes::be64(v));
}

spec fn none() -> Seq<u32> {
    Seq::empty()
}

proof fn lemma_first(w: u32)
    ensures
        wire(none().push(w)) == crate::bytes::be32(w),
{
    lemma_push(none(), w);
    lemma_wire(none());
    assert(wire(none().push(w)) =~= crate::bytes::be32(w));
}

spec fn link_numbers(c: InterfaceCounters) -> Seq<u32> {
    none().push(c.if_index).push(c.if_type).push((c.if_speed_bps / 0x1_0000_0000) as u32).push(
        (c.if_speed_bps % 0x1_0000_0000) as u32,
    ).push(
        if c.full_duplex {
            1
        } else {
            2
        },
    ).push(crate::sflow::status_word(c))
}

proof fn lemma_link(c: InterfaceCounters)
    ensures
        wire(link_numbers(c)) == crate::sflow::link_words(c),
{
    let a = none().push(c.if_index);
    let b = a.push(c.if_type);
    let d = b.push((c.if_speed_bps / 0x1_0000_0000) as u32).push(
        (c.if_speed_bps % 0x1_0000_0000) as u32,
    );
    let duplex: u32 = if c.full_duplex {
        1
    } else {
        2
    };
    lemma_first(c.if_index);
    lemma_push(a, c.if_type);
    lemma_long(b, c.if_speed_bps);
    lemma_push(d, duplex);
    lemma_push(d.push(duplex), crate::sflow::status_word(c));
}

spec fn direction_numbers(
    octets: u64,
    ucast: u32,
    mcast: u32,
    bcast: u32,
    discards: u32,
    errors: u32,
) -> Seq<u32> {
    none().push((octets / 0x1_0000_0000) as u32).push((octets % 0x1_0000_0000) as u32).push(
        ucast,
    ).push(mcast).push(bcast).push(discards).push(errors).push(0)
}

proof fn lemma_direction(
    octets: u64,
    ucast: u32,
    mcast: u32,
    bcast: u32,
    discards: u32,
    errors: u32,
)
    ensures
        wire(direction_numbers(octets, ucast, mcast, bcast, discards, errors))
            == crate::sflow::direction_words(octets, ucast, mcast, bcast, discards, errors),
{
    let a = none().push((octets / 0x1_0000_0000) as u32).push((octets % 0x1_0000_0000) as u32);
    lemma_long(none(), octets);
    lemma_wire(none());
    assert(wire(none()) + crate::bytes::be64(octets) =~= crate::bytes::be64(octets));
    lemma_push(a, ucast);
    lemma_push(a.push(ucast), mcast);
    lemma_push(a.push(ucast).push(mcast), bcast);
    lemma_push(a.push(ucast).push(mcast).push(bcast), discards);
    lemma_push(a.push(ucast).push(mcast).push(bcast).push(discards), errors);
    lemma_push(a.push(ucast).push(mcast).push(bcast).push(discards).push(errors), 0);
}

spec fn generic_numbers(c: InterfaceCounters) -> Seq<u32> {
    link_numbers(c) + direction_numbers(
        c.in_octets,
        c.in_ucast_pkts,
        c.in_mcast_pkts,
        c.in_bcast_pkts,
        c.in_discards,
        c.in_errors,
    ) + direction_numbers(
        c.out_octets,
        c.out_ucast_pkts,
        c.out_mcast_pkts,
        c.out_bcast_pkts,
        c.out_discards,
        c.out_errors,
    )
}

proof fn lemma_generic(c: InterfaceCounters)
    ensures
        wire(generic_numbers(c)) == crate::sflow::generic_counters(c),
{
    let received = direction_numbers(
        c.in_octets,
        c.in_ucast_pkts,
        c.in_mcast_pkts,
        c.in_bcast_pkts,
        c.in_discards,
        c.in_errors,
    );
    let sent = direction_numbers(
        c.out_octets,
        c.out_ucast_pkts,
        c.out_mcast_pkts,
        c.out_bcast_pkts,
        c.out_discards,
        c.out_errors,
    );
    lemma_link(c);
    lemma_direction(
        c.in_octets,
        c.in_ucast_pkts,
        c.in_mcast_pkts,
        c.in_bcast_pkts,
        c.in_discards,
        c.in_errors,
    );
    lemma_direction(
        c.out_octets,
        c.out_ucast_pkts,
        c.out_mcast_pkts,
        c.out_bcast_pkts,
        c.out_discards,
        c.out_errors,
    );
    lemma_join(link_numbers(c), received);
    lemma_join(link_numbers(c) + received, sent);
}

proof fn lemma_link_at(c: InterfaceCounters)
    ensures
        ({
            let s = link_numbers(c);
            &&& s.len() == 6
            &&& s[0] == c.if_index
            &&& s[1] == c.if_type
            &&& s[2] * 0x1_0000_0000 + s[3] == c.if_speed_bps
            &&& s[4] == (if c.full_duplex {
                1u32
            } else {
                2u32
            })
            &&& s[5] == (if c.admin_up {
                1int
            } else {
                0
            }) + (if c.oper_up {
                2int
            } else {
                0
            })
        }),
{
}

proof fn lemma_direction_at(
    octets: u64,
    ucast: u32,
    mcast: u32,
    bcast: u32,
    discards: u32,
    errors: u32,
)
    ensures
        ({
            let s = direction_numbers(octets, ucast, mcast, bcast, discards, errors);
            &&& s.len() == 8
            &&& s[0] * 0x1_0000_0000 + s[1] == octets
            &&& s[2] == ucast
            &&& s[3] == mcast
            &&& s[4] == bcast
            &&& s[5] == discards
            &&& s[6] == errors
            &&& s[7] == 0
        }),
{
}

/// Every number of a port's counters stands at its own place in the 88 bytes
/// of the record: what the port is and how it stands first, then what it
/// received, then what it sent.
pub proof fn lemma_counters_layout(c: InterfaceCounters)
    ensures
        ({
            let b = crate::sflow::generic_counters(c);
            &&& b.len() == 88
            &&& number(b, 0) == c.if_index
            &&& number(b, 4) == c.if_type
            &&& long_number(b, 8) == c.if_speed_bps
            &&& number(b, 16) == (if c.full_duplex {
                1int
            } else {
                2
            })
            &&& number(b, 20) == (if c.admin_up {
                1int
            } else {
                0
            }) + (if c.oper_up {
                2int
            } else {
                0
            })
            &&& long_number(b, 24) == c.in_octets
            &&& number(b, 32) == c.in_ucast_pkts
            &&& number(b, 36) == c.in_mcast_pkts
            &&& number(b, 40) == c.in_bcast_pkts
            &&& number(b, 44) == c.in_discards
            &&& number(b, 48) == c.in_errors
            &&& number(b, 52) == 0
            &&& long_number(b, 56) == c.out_octets
            &&& number(b, 64) == c.out_ucast_pkts
            &&& number(b, 68) == c.out_mcast_pkts
            &&& number(b, 72) == c.out_bcast_pkts
            &&& number(b, 76) == c.out_discards
            &&& number(b, 80) == c.out_errors
            &&& number(b, 84) == 0
        }),
{
    let s = generic_numbers(c);
    lemma_generic(c);
    lemma_wire(s);
    lemma_link_at(c);
    lemma_direction_at(
        c.in_octets,
        c.in_ucast_pkts,
        c.in_mcast_pkts,
        c.in_bcast_pkts,
        c.in_discards,
        c.in_errors,
    );
    lemma_direction_at(
        c.out_octets,
        c.out_ucast_pkts,
        c.out_mcast_pkts,
        c.out_bcast_pkts,
        c.out_discards,
        c.out_errors,
    );
    let l = link_numbers(c);
    let received = direction_numbers(
        c.in_octets,
        c.in_ucast_pkts,
        c.in_mcast_pkts,
        c.in_bcast_pkts,
        c.in_discards,
        c.in_errors,
    );
    let sent = direction_numbers(
        c.out_octets,
        c.out_ucast_pkts,
        c.out_mcast_pkts,
        c.out_bcast_pkts,
        c.out_discards,
        c.out_errors,
    );
    assert forall|i: int| 0 <= i < 6 implies #[trigger] s[i] == l[i] by {}
    assert forall|i: int| 6 <= i < 14 implies #[trigger] s[i] == received[i - 6] by {}
    assert forall|i: int| 14 <= i < 22 implies #[trigger] s[i] == sent[i - 14] by {}
    assert(s[0] == l[0] && s[1] == l[1] && s[2] == l[2] && s[3] == l[3] && s[4] == l[4] && s[5]
        == l[5]);
    assert(s[6] == received[0] && s[7] == received[1] && s[8] == received[2] && s[9]
        == received[3]);
    assert(s[10] == received[4] && s[11] == received[5] && s[12] == received[6] && s[13]
        == received[7]);
    assert(s[14] == sent[0] && s[15] == sent[1] && s[16] == sent[2] && s[17] == sent[3]);
    assert(s[18] == sent[4] && s[19] == sent[5] && s[20] == sent[6] && s[21] == sent[7]);
}

/// Counters that differ in any number are different on the wire.
pub proof fn lemma_counters_told_apart(c: InterfaceCounters, d: InterfaceCounters)
    requires
        c != d,
    ensures
        crate::sflow::generic_counters(c) != crate::sflow::generic_counters(d),
{
    lemma_counters_layout(c);
    lemma_counters_layout(d);
}

spec fn counters_head(sequence: u32, if_index: u32) -> Seq<u32> {
    none().push(2).push(108).push(sequence).push((if_index % 0x100_0000) as u32).push(1).push(
        1,
    ).push(88)
}

proof fn lemma_counters_head(sequence: u32, if_index: u32)
    ensures
        wire(counters_head(sequence, if_index)) == crate::bytes::be32(2) + crate::bytes::be32(108)
            + crate::bytes::be32(sequence) + crate::bytes::be32((if_index % 0x100_0000) as u32)
            + crate::bytes::be32(1) + crate::bytes::be32(1) + crate::bytes::be32(88),
{
    let source = (if_index % 0x100_0000) as u32;
    lemma_first(2);
    lemma_push(none().push(2), 108);
    lemma_push(none().push(2).push(108), sequence);
    lemma_push(none().push(2).push(108).push(sequence), source);
    lemma_push(none().push(2).push(108).push(sequence).push(source), 1);
    lemma_push(none().push(2).push(108).push(sequence).push(source).push(1), 1);
    lemma_push(none().push(2).push(108).push(sequence).push(source).push(1).push(1), 88);
}

proof fn lemma_counters_bytes(sequence: u32, c: InterfaceCounters)
    ensures
        crate::sflow::record_bytes(RecordModel::Counters { sequence, counters: c }) == wire(
            counters_head(sequence, c.if_index),
        ) + crate::sflow::generic_counters(c),
{
    let g = crate::sflow::generic_counters(c);
    lemma_counters_head(sequence, c.if_index);
    lemma_generic(c);
    lemma_wire(generic_numbers(c));
    assert(g.len() == 88);
    lemma_framed(sequence, (c.if_index % 0x100_0000) as u32, g);
    reveal(crate::sflow::record_bytes);
    reveal(crate::sflow::counters_body);
}

proof fn lemma_framed(sequence: u32, source: u32, g: Seq<u8>)
    requires
        g.len() == 88,
    ensures
        crate::bytes::be32(2) + crate::sflow::sized_bytes(
            crate::bytes::be32(sequence) + crate::bytes::be32(source) + crate::bytes::be32(1)
                + crate::bytes::be32(1) + crate::sflow::sized_bytes(g),
        ) == crate::bytes::be32(2) + crate::bytes::be32(108) + crate::bytes::be32(sequence)
            + crate::bytes::be32(source) + crate::bytes::be32(1) + crate::bytes::be32(1)
            + crate::bytes::be32(88) + g,
{
    let body = crate::bytes::be32(sequence) + crate::bytes::be32(source) + crate::bytes::be32(1)
        + crate::bytes::be32(1) + crate::sflow::sized_bytes(g);
    assert(body.len() == 108);
    assert(crate::bytes::be32(2) + crate::sflow::sized_bytes(body) =~= crate::bytes::be32(2)
        + crate::bytes::be32(108) + crate::bytes::be32(sequence) + crate::bytes::be32(source)
        + crate::bytes::be32(1) + crate::bytes::be32(1) + crate::bytes::be32(88) + g);
}

/// A counters sample on the wire: its type and length, its number, the port
/// that it is of, and one generic record with the port's counters.
pub proof fn lemma_counters_sample_layout(sequence: u32, c: InterfaceCounters)
    ensures
        ({
            let b = crate::sflow::record_bytes(RecordModel::Counters { sequence, counters: c });
            &&& b.len() == 116
            &&& number(b, 0) == 2
            &&& number(b, 4) == 108
            &&& number(b, 8) == sequence
            &&& number(b, 12) == c.if_index % 0x100_0000
            &&& number(b, 16) == 1
            &&& number(b, 20) == 1
            &&& number(b, 24) == 88
            &&& b.skip(28) == crate::sflow::generic_counters(c)
        }),
{
    let g = crate::sflow::generic_counters(c);
    let h = counters_head(sequence, c.if_index);
    lemma_counters_bytes(sequence, c);
    assert(g.len() == 88) by {
        lemma_counters_layout(c);
    }
    lemma_front(h, g);
    assert(h.len() == 7 && h[0] == 2 && h[1] == 108 && h[2] == sequence && h[3] == c.if_index
        % 0x100_0000 && h[4] == 1 && h[5] == 1 && h[6] == 88);
}

spec fn flow_head(
    length: u32,
    sequence: u32,
    if_index: u32,
    sampling_rate: u32,
    sample_pool: u32,
    drops: u32,
) -> Seq<u32> {
    none().push(1).push(length).push(sequence).push((if_index % 0x100_0000) as u32).push(
        sampling_rate,
    ).push(sample_pool).push(drops).push(if_index)
}

proof fn lemma_flow_head(
    length: u32,
    sequence: u32,
    if_index: u32,
    sampling_rate: u32,
    sample_pool: u32,
    drops: u32,
)
    ensures
        wire(flow_head(length, sequence, if_index, sampling_rate, sample_pool, drops))
            == crate::bytes::be32(1) + crate::bytes::be32(length) + crate::bytes::be32(sequence)
            + crate::bytes::be32((if_index % 0x100_0000) as u32) + crate::bytes::be32(sampling_rate)
            + crate::bytes::be32(sample_pool) + crate::bytes::be32(drops) + crate::bytes::be32(
            if_index,
        ),
{
    let source = (if_index % 0x100_0000) as u32;
    let a = none().push(1);
    let b = a.push(length).push(sequence);
    let c = b.push(source).push(sampling_rate);
    lemma_first(1);
    lemma_push(a, length);
    lemma_push(a.push(length), sequence);
    lemma_push(b, source);
    lemma_push(b.push(source), sampling_rate);
    lemma_push(c, sample_pool);
    lemma_push(c.push(sample_pool), drops);
    lemma_push(c.push(sample_pool).push(drops), if_index);
}

spec fn raw_head(length: u32, frame_length: u32, size: u32) -> Seq<u32> {
    none().push(0).push(1).push(1).push(length).push(1).push(frame_length).push(4).push(size)
}

proof fn lemma_raw_head(length: u32, frame_length: u32, size: u32)
    ensures
        wire(raw_head(length, frame_length, size)) == crate::bytes::be32(0) + crate::bytes::be32(1)
            + crate::bytes::be32(1) + crate::bytes::be32(length) + crate::bytes::be32(1)
            + crate::bytes::be32(frame_length) + crate::bytes::be32(4) + crate::bytes::be32(size),
{
    let a = none().push(0);
    let b = a.push(1).push(1);
    let c = b.push(length).push(1);
    lemma_first(0);
    lemma_push(a, 1);
    lemma_push(a.push(1), 1);
    lemma_push(b, length);
    lemma_push(b.push(length), 1);
    lemma_push(c, frame_length);
    lemma_push(c.push(frame_length), 4);
    lemma_push(c.push(frame_length).push(4), size);
}

/// The zero bytes that fill a run of bytes up to a multiple of four.
pub open spec fn fill(len: nat) -> nat {
    if len % 4 == 0 {
        0
    } else {
        (4 - len % 4) as nat
    }
}

proof fn lemma_flow_bytes(
    sequence: u32,
    if_index: u32,
    sampling_rate: u32,
    sample_pool: u32,
    drops: u32,
    frame_length: u32,
    header: Seq<u8>,
)
    requires
        header.len() < 0x1000_0000,
    ensures
        ({
            let b = crate::sflow::record_bytes(
                RecordModel::Flow {
                    sequence,
                    if_index,
                    sampling_rate,
                    sample_pool,
                    drops,
                    frame_length,
                    header,
                },
            );
            let zeros = Seq::new(fill(header.len()), |i: int| 0u8);
            b == wire(
                flow_head(
                    (56 + header.len() + fill(header.len())) as u32,
                    sequence,
                    if_index,
                    sampling_rate,
                    sample_pool,
                    drops,
                ),
            ) + wire(
                raw_head(
                    (16 + header.len() + fill(header.len())) as u32,
                    frame_length,
                    header.len() as u32,
                ),
            ) + (header + zeros)
        }),
{
    let zeros = Seq::new(fill(header.len()), |i: int| 0u8);
    let inner = (16 + header.len() + fill(header.len())) as u32;
    let length = (56 + header.len() + fill(header.len())) as u32;
    lemma_flow_head(length, sequence, if_index, sampling_rate, sample_pool, drops);
    lemma_raw_head(inner, frame_length, header.len() as u32);
    reveal(crate::sflow::record_bytes);
    reveal(crate::sflow::flow_body);
    assert(crate::sflow::padding(header.len()) == fill(header.len()));
    assert(crate::sflow::opaque_bytes(header) =~= crate::bytes::be32(header.len() as u32) + (header
        + zeros));
    let raw = crate::sflow::raw_header(frame_length, header);
    assert(raw.len() == inner);
    let body = crate::sflow::flow_body(
        sequence,
        if_index,
        sampling_rate,
        sample_pool,
        drops,
        frame_length,
        header,
    );
    assert(body.len() == length);
    assert(crate::sflow::sized_bytes(raw) == crate::bytes::be32(inner) + raw);
    assert(crate::sflow::sized_bytes(body) == crate::bytes::be32(length) + body);
    let b = crate::bytes::be32(1) + (crate::bytes::be32(length) + body);
    let front = wire(flow_head(length, sequence, if_index, sampling_rate, sample_pool, drops));
    let middle = wire(raw_head(inner, frame_length, header.len() as u32));
    lemma_wire(flow_head(length, sequence, if_index, sampling_rate, sample_pool, drops));
    lemma_wire(raw_head(inner, frame_length, header.len() as u32));
    let tail = crate::bytes::be32(1) + crate::bytes::be32(frame_length) + crate::bytes::be32(4) + (
    crate::bytes::be32(header.len() as u32) + (header + zeros));
    assert(raw == tail);
    assert(b =~= front + middle + (header + zeros));
}

proof fn lemma_flow_numbers(
    length: u32,
    sequence: u32,
    if_index: u32,
    sampling_rate: u32,
    sample_pool: u32,
    drops: u32,
    inner: u32,
    frame_length: u32,
    size: u32,
)
    ensures
        ({
            let s = flow_head(length, sequence, if_index, sampling_rate, sample_pool, drops)
                + raw_head(inner, frame_length, size);
            &&& s.len() == 16
            &&& s[0] == 1
            &&& s[1] == length
            &&& s[2] == sequence
            &&& s[3] == if_index % 0x100_0000
            &&& s[4] == sampling_rate
            &&& s[5] == sample_pool
            &&& s[6] == drops
            &&& s[7] == if_index
            &&& s[8] == 0
            &&& s[9] == 1
            &&& s[10] == 1
            &&& s[11] == inner
            &&& s[12] == 1
            &&& s[13] == frame_length
            &&& s[14] == 4
            &&& s[15] == size
        }),
{
}

/// A flow sample on the wire: its type and length, its number, the port, the
/// rate and the packets it stands for, what was dropped, where the frame came
/// in, then one raw packet header of the ethernet frame with the frame's
/// length and its first bytes.
pub proof fn lemma_flow_sample_layout(
    sequence: u32,
    if_index: u32,
    sampling_rate: u32,
    sample_pool: u32,
    drops: u32,
    frame_length: u32,
    header: Seq<u8>,
)
    requires
        header.len() < 0x1000_0000,
    ensures
        ({
            let b = crate::sflow::record_bytes(
                RecordModel::Flow {
                    sequence,
                    if_index,
                    sampling_rate,
                    sample_pool,
                    drops,
                    frame_length,
                    header,
                },
            );
            let len = header.len() as int;
            &&& b.len() == 64 + len + fill(header.len())
            &&& b.len() % 4 == 0
            &&& number(b, 0) == 1
            &&& number(b, 4) == b.len() - 8
            &&& number(b, 8) == sequence
            &&& number(b, 12) == if_index % 0x100_0000
            &&& number(b, 16) == sampling_rate
            &&& number(b, 20) == sample_pool
            &&& number(b, 24) == drops
            &&& number(b, 28) == if_index
            &&& number(b, 32) == 0
            &&& number(b, 36) == 1
            &&& number(b, 40) == 1
            &&& number(b, 44) == b.len() - 48
            &&& number(b, 48) == 1
            &&& number(b, 52) == frame_length
            &&& number(b, 56) == 4
            &&& number(b, 60) == len
            &&& b.subrange(64, 64 + len) == header
            &&& forall|i: int| 64 + len <= i < b.len() ==> #[trigger] b[i] == 0
        }),
{
    let zeros = Seq::new(fill(header.len()), |i: int| 0u8);
    let inner = (16 + header.len() + fill(header.len())) as u32;
    let length = (56 + header.len() + fill(header.len())) as u32;
    let h = flow_head(length, sequence, if_index, sampling_rate, sample_pool, drops);
    let k = raw_head(inner, frame_length, header.len() as u32);
    lemma_flow_bytes(
        sequence,
        if_index,
        sampling_rate,
        sample_pool,
        drops,
        frame_length,
        header,
    );
    let rest = header + zeros;
    let all = h + k;
    lemma_join(h, k);
    lemma_front(all, rest);
    let b = wire(all) + rest;
    lemma_flow_numbers(
        length,
        sequence,
        if_index,
        sampling_rate,
        sample_pool,
        drops,
        inner,
        frame_length,
        header.len() as u32,
    );
    assert(b.skip(64) == rest);
    assert(b.subrange(64, 64 + header.len() as int) =~= rest.take(header.len() as int));
    assert(rest.take(header.len() as int) =~= header);
    assert forall|i: int| 64 + header.len() <= i < b.len() implies #[trigger] b[i] == 0 by {
        assert(b[i] == b.skip(64)[i - 64]);
    }
}

spec fn datagram_head(d: DatagramModel) -> Seq<u32> {
    none().push(5).push(1).push(d.agent_address.bits).push(d.sub_agent_id).push(d.sequence).push(
        d.uptime_ms,
    ).push(d.records.len() as u32)
}

/// A datagram on the wire: version 5, an IPv4 agent address, the sub-agent,
/// the datagram's number, the agent's uptime, how many records there are, and
/// the records one behind the other.
pub proof fn lemma_datagram_layout(d: DatagramModel)
    requires
        d.records.len() <= u32::MAX,
    ensures
        ({
            let b = crate::sflow::datagram_bytes(d);
            &&& b.len() >= 28
            &&& number(b, 0) == 5
            &&& number(b, 4) == 1
            &&& number(b, 8) == d.agent_address.bits
            &&& number(b, 12) == d.sub_agent_id
            &&& number(b, 16) == d.sequence
            &&& number(b, 20) == d.uptime_ms
            &&& number(b, 24) == d.records.len()
            &&& d.records.len() == 0 ==> b.len() == 28
        }),
{
    let b = crate::sflow::datagram_bytes(d);
    let h = datagram_head(d);
    let e = none();
    lemma_first(5);
    lemma_push(e.push(5), 1);
    lemma_push(e.push(5).push(1), d.agent_address.bits);
    let f = e.push(5).push(1).push(d.agent_address.bits);
    lemma_push(f, d.sub_agent_id);
    lemma_push(f.push(d.sub_agent_id), d.sequence);
    lemma_push(f.push(d.sub_agent_id).push(d.sequence), d.uptime_ms);
    lemma_push(
        f.push(d.sub_agent_id).push(d.sequence).push(d.uptime_ms),
        d.records.len() as u32,
    );
    lemma_wire(h);
    assert(crate::sflow::header_bytes(d) == wire(h));
    assert forall|i: int| 0 <= i < 7 implies number(b, 4 * i) == #[trigger] h[i] by {
        assert(number(wire(h), 4 * i) == h[i]);
    }
    assert(number(b, 0) == h[0] && number(b, 4) == h[1] && number(b, 8) == h[2] && number(b, 12)
        == h[3]);
    assert(number(b, 16) == h[4] && number(b, 20) == h[5] && number(b, 24) == h[6]);
}

proof fn lemma_same_records(a: Seq<RecordModel>, b: Seq<RecordModel>, n: int)
    requires
        n <= a.len(),
        n <= b.len(),
        forall|i: int| 0 <= i < n ==> a[i] == b[i],
    ensures
        crate::sflow::records_bytes(a, n) == crate::sflow::records_bytes(b, n),
    decreases n,
{
    if n > 0 {
        lemma_same_records(a, b, n - 1);
    }
}

/// One more record makes a datagram longer by that record, behind the others.
pub proof fn lemma_records_follow(d: DatagramModel, r: RecordModel)
    requires
        d.records.len() < u32::MAX,
    ensures
        ({
            let more = DatagramModel { records: d.records.push(r), ..d };
            crate::sflow::datagram_bytes(more).skip(28) == crate::sflow::datagram_bytes(d).skip(28)
                + crate::sflow::record_bytes(r)
        }),
{
    let more = DatagramModel { records: d.records.push(r), ..d };
    lemma_datagram_layout(d);
    lemma_datagram_layout(more);
    let n = d.records.len() as int;
    lemma_same_records(d.records, d.records.push(r), n);
    assert(crate::sflow::header_bytes(d).len() == 28);
    assert(crate::sflow::header_bytes(more).len() == 28);
    assert(crate::sflow::datagram_bytes(d).skip(28) =~= crate::sflow::records_bytes(d.records, n));
    assert(crate::sflow::datagram_bytes(more).skip(28) =~= crate::sflow::records_bytes(
        more.records,
        n + 1,
    ));
}

/// What a counter reads, 0 where it was never counted.
pub open spec fn reads(m: Map<u32, u32>, key: u32) -> int {
    if m.dom().contains(key) {
        m[key] as int
    } else {
        0
    }
}

/// A datagram that queueing `r` sends off carries what was queued before, in
/// order, under the next number; and is sent off exactly where the queue holds
/// something and would grow over 1400 bytes.
pub open spec fn queues(
    m: EngineModel,
    r: RecordModel,
    now: u64,
    after: EngineModel,
    ready: Option<DatagramModel>,
) -> bool {
    let full = m.pending.len() > 0 && 28 + crate::sflow::records_bytes(
        m.pending,
        m.pending.len() as int,
    ).len() + crate::sflow::record_bytes(r).len() > 1400;
    &&& ready is Some <==> full
    &&& full ==> sends(m, now, ready->0)
    &&& full ==> after.pending == seq![r] && after.first_pending == Some(now)
    &&& full ==> after.sequence == (m.sequence + 1) % 0x1_0000_0000
    &&& !full ==> after.pending == m.pending.push(r) && after.sequence == m.sequence
    &&& !full ==> after.first_pending == (if m.pending.len() == 0 {
        Some(now)
    } else {
        m.first_pending
    })
    &&& after.config == m.config
    &&& after.started == m.started
    &&& after.counters.datagrams_sent == m.counters.datagrams_sent
    &&& after.counters.datagrams_failed == m.counters.datagrams_failed
}

/// A datagram with everything that is queued, under the next number.
pub open spec fn sends(m: EngineModel, now: u64, d: DatagramModel) -> bool {
    &&& d.records == m.pending
    &&& d.agent_address == m.config.agent_address
    &&& d.sub_agent_id == 0
    &&& d.sequence == (m.sequence + 1) % 0x1_0000_0000
    &&& now <= m.started ==> d.uptime_ms == 0
    &&& m.started <= now <= m.started + u32::MAX ==> d.uptime_ms == now - m.started
    &&& now > m.started + u32::MAX ==> d.uptime_ms == u32::MAX
}

/// A sample becomes one flow record of its port: the port's next number, the
/// rate (1 where none is set), the pool grown by the rate, the frame's length
/// and at most its first 128 bytes.
pub proof fn lemma_samples_are_exported(m: EngineModel, s: Sample, now: u64)
    requires
        m.counters.samples_taken < u64::MAX,
    ensures
        ({
            let after = crate::sflow::sample_taken(m, s, now);
            let ready = crate::sflow::sample_ready(m, s, now);
            let rate: int = if m.config.sample_rate == 0 {
                1
            } else {
                m.config.sample_rate as int
            };
            let number = (reads(m.flow_sequences, s.if_index) + 1) % 0x1_0000_0000;
            let pool = (reads(m.sample_pool, s.if_index) + rate) % 0x1_0000_0000;
            &&& !m.config.enabled ==> after == m && ready is None
            &&& m.config.enabled ==> {
                &&& after.pending.len() > 0
                &&& queues(m, after.pending.last(), now, after, ready)
                &&& after.counters.samples_taken == m.counters.samples_taken + 1
                &&& after.counters.counter_samples == m.counters.counter_samples
                &&& after.counter_sequences == m.counter_sequences
                &&& after.flow_sequences == m.flow_sequences.insert(s.if_index, number as u32)
                &&& after.sample_pool == m.sample_pool.insert(s.if_index, pool as u32)
            }
            &&& m.config.enabled ==> (after.pending.last() matches RecordModel::Flow {
                sequence,
                if_index,
                sampling_rate,
                sample_pool,
                drops,
                frame_length,
                header,
            } && {
                &&& sequence == number
                &&& if_index == s.if_index
                &&& sampling_rate == rate
                &&& sample_pool == pool
                &&& drops == 0
                &&& frame_length == s.original_length
                &&& s.bytes@.len() <= 128 ==> header == s.bytes@
                &&& s.bytes@.len() > 128 ==> header == s.bytes@.take(128)
            })
        }),
{
    let after = crate::sflow::sample_taken(m, s, now);
    if m.config.enabled {
        assert(after.pending.last() == crate::sflow::sample_record(m, s));
        assert(Seq::<RecordModel>::empty().push(after.pending.last()) =~= seq![
            after.pending.last(),
        ]);
    }
}

/// Each polled port becomes one counters record with the port's next number
/// and the counters as they were read.
pub proof fn lemma_polls_are_exported(
    m: EngineModel,
    list: Seq<InterfaceCounters>,
    n: int,
    now: u64,
)
    requires
        0 < n <= list.len(),
        m.counters.counter_samples + n <= u64::MAX,
    ensures
        ({
            let before = crate::sflow::polled(m, list, n - 1, now);
            let after = crate::sflow::polled(m, list, n, now);
            let sent = crate::sflow::polled_ready(m, list, n - 1, now);
            let ready = crate::sflow::polled_ready(m, list, n, now);
            let c = list[n - 1];
            let number = (reads(before.counter_sequences, c.if_index) + 1) % 0x1_0000_0000;
            &&& crate::sflow::polled(m, list, 0, now) == m
            &&& crate::sflow::polled_ready(m, list, 0, now).len() == 0
            &&& after.pending.len() > 0
            &&& after.pending.last() == RecordModel::Counters {
                sequence: number as u32,
                counters: c,
            }
            &&& exists|d: Option<DatagramModel>|
                #[trigger] queues(before, after.pending.last(), now, after, d) && ready == (
                match d {
                    Some(x) => sent.push(x),
                    None => sent,
                })
            &&& after.counters.counter_samples == m.counters.counter_samples + n
            &&& after.counters.samples_taken == m.counters.samples_taken
            &&& after.counter_sequences == before.counter_sequences.insert(
                c.if_index,
                number as u32,
            )
            &&& after.flow_sequences == before.flow_sequences
            &&& after.sample_pool == before.sample_pool
        }),
    decreases n,
{
    if n > 1 {
        lemma_polls_are_exported(m, list, n - 1, now);
    }
    let before = crate::sflow::polled(m, list, n - 1, now);
    let after = crate::sflow::polled(m, list, n, now);
    let r = after.pending.last();
    assert(r == crate::sflow::counters_record(before, list[n - 1]));
    assert(Seq::<RecordModel>::empty().push(r) =~= seq![r]);
    let d = crate::sflow::pushed_ready(
        crate::sflow::poll_counted(before, list[n - 1].if_index),
        r,
        now,
    );
    assert(queues(before, r, now, after, d));
}

/// What is queued is sent off once its oldest record is half a second old, and
/// not before; everything leaves at once.
pub proof fn lemma_flushes(m: EngineModel, now: u64)
    ensures
        m.first_pending is None ==> !crate::sflow::flush_is_due(m, now),
        m.first_pending matches Some(at) ==> (crate::sflow::flush_is_due(m, now) <==> now >= at
            + 500),
        sends(m, now, crate::sflow::sealed_datagram(m, now)),
        ({
            let after = crate::sflow::sealed(m);
            &&& after.pending.len() == 0
            &&& after.first_pending is None
            &&& after.sequence == (m.sequence + 1) % 0x1_0000_0000
            &&& after.config == m.config
            &&& after.counters == m.counters
            &&& after.flow_sequences == m.flow_sequences
            &&& after.counter_sequences == m.counter_sequences
            &&& after.sample_pool == m.sample_pool
            &&& after.started == m.started
        }),
{
}

/// A configuration replaces the one before it. Switched off, what is queued is
/// dropped; the numbers go on either way.
pub proof fn lemma_configurations_replace(m: EngineModel, config: Config)
    ensures
        ({
            let after = crate::sflow::configured(m, config);
            &&& after.config == config
            &&& config.enabled ==> after.pending == m.pending && after.first_pending
                == m.first_pending
            &&& !config.enabled ==> after.pending.len() == 0 && after.first_pending is None
            &&& after.sequence == m.sequence
            &&& after.counters == m.counters
            &&& after.flow_sequences == m.flow_sequences
            &&& after.counter_sequences == m.counter_sequences
            &&& after.sample_pool == m.sample_pool
            &&& after.started == m.started
        }),
{
}

} // verus!
