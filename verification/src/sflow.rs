//! The sFlow exporter: hardware-sampled frames and periodic counter
//! polls into sFlow v5 datagrams, out to the collectors.
//!
//! syncd owns the ASIC sampler (the samplepacket session and its port
//! bindings) and streams sampled frames up; this engine owns the *export* —
//! sequence numbers, the agent identity, datagram packing and pacing.
//!
//! Encoding is XDR: everything big-endian and padded to four bytes.
//!
//! Deliberate scope: ingress flow samples with a raw-packet-header
//! record, plus generic interface counter samples. Egress sampling is
//! out of scope for this suite, and extended flow records (router,
//! switch, gateway) need forwarding context orch does not have.

use vstd::prelude::*;

use crate::bytes::{copy_bytes, push_all, push_be32, push_be64, push_fill};
use crate::clock::elapsed;
use crate::ip::{IpAddr, Ipv4};
use crate::ordmap::OrdMap;
use crate::text::copy_texts;

verus! {

/// The most header bytes a flow sample carries. 128 covers L2 through
/// the transport header of any normal frame, which is all a collector
/// classifies on.
pub const MAX_HEADER_BYTES: usize = 128;

/// sFlow's default collector port.
pub const DEFAULT_COLLECTOR_PORT: u16 = 6343;

/// Samples are packed until the datagram would exceed this, so it fits
/// one ordinary-MTU UDP payload with room to spare.
pub const MAX_DATAGRAM_BYTES: usize = 1400;

/// How long a partly-filled datagram waits for company before it is
/// sent anyway, in milliseconds.
pub const FLUSH_AFTER: u64 = 500;

/// The fixed datagram header: version, address type, address, sub-agent,
/// sequence, uptime, sample count.
pub const HEADER_BYTES: usize = 28;

/// Where a collector listens.
#[derive(Debug, Clone, Copy, PartialEq, Eq)]
pub struct Collector {
    pub address: IpAddr,
    pub port: u16,
}

#[derive(Debug, Clone, PartialEq, Eq)]
pub struct Config {
    /// False = no collector configured, so nothing is exported.
    pub enabled: bool,
    pub collectors: Vec<Collector>,
    /// 1-in-N.
    pub sample_rate: u32,
    /// Seconds between counter polls.
    pub polling_interval: u32,
    /// The agent address the datagrams carry (Management1).
    pub agent_address: Ipv4,
    /// The interface that address belongs to, for display.
    pub agent_interface: String,
    /// Ports sampling is enabled on, for display.
    pub enabled_ports: Vec<String>,
    /// Ports carrying `sflow disable`, for display.
    pub disabled_ports: Vec<String>,
}

impl Default for Config {
    fn default() -> (r: Config)
        ensures
            !r.enabled,
            r.collectors@.len() == 0,
            r.sample_rate == 0,
            r.polling_interval == 0,
            r.agent_address.bits == 0,
            r.agent_interface@.len() == 0,
            r.enabled_ports@.len() == 0,
            r.disabled_ports@.len() == 0,
    {
        Config {
            enabled: false,
            collectors: Vec::new(),
            sample_rate: 0,
            polling_interval: 0,
            // Unspecified until syncd reports the management address;
            // a datagram carrying it names no agent, which is exactly
            // what an unconfigured exporter should say.
            agent_address: Ipv4 { bits: 0 },
            agent_interface: String::new(),
            enabled_ports: Vec::new(),
            disabled_ports: Vec::new(),
        }
    }
}

/// Two configurations say the same.
pub open spec fn same_config(a: Config, b: Config) -> bool {
    &&& a.enabled == b.enabled
    &&& a.collectors@ == b.collectors@
    &&& a.sample_rate == b.sample_rate
    &&& a.polling_interval == b.polling_interval
    &&& a.agent_address == b.agent_address
    &&& a.agent_interface@ == b.agent_interface@
    &&& a.enabled_ports@ == b.enabled_ports@
    &&& a.disabled_ports@ == b.disabled_ports@
}

impl Config {
    fn copy(&self) -> (r: Config)
        ensures
            same_config(r, *self),
    {
        let mut collectors: Vec<Collector> = Vec::new();
        let mut i: usize = 0;
        while i < self.collectors.len()
            invariant
                i <= self.collectors@.len(),
                collectors@ == self.collectors@.take(i as int),
            decreases self.collectors@.len() - i,
        {
            collectors.push(self.collectors[i]);
            i = i + 1;
            assert(collectors@ =~= self.collectors@.take(i as int));
        }
        assert(collectors@ =~= self.collectors@);
        Config {
            enabled: self.enabled,
            collectors,
            sample_rate: self.sample_rate,
            polling_interval: self.polling_interval,
            agent_address: self.agent_address,
            agent_interface: self.agent_interface.clone(),
            enabled_ports: copy_texts(&self.enabled_ports),
            disabled_ports: copy_texts(&self.disabled_ports),
        }
    }
}

/// One sampled frame, as syncd delivered it.
#[derive(Debug, Clone)]
pub struct Sample {
    /// ifIndex of the ingress port (the port name is resolved to it
    /// before the sample gets here).
    pub if_index: u32,
    /// The frame's length on the wire.
    pub original_length: u32,
    pub bytes: Vec<u8>,
}

/// One port's generic interface counters, from the same syncd view the
/// SNMP subagent reads.
#[derive(Debug, Clone, Copy)]
pub struct InterfaceCounters {
    pub if_index: u32,
    pub if_type: u32,
    pub if_speed_bps: u64,
    /// True = full duplex.
    pub full_duplex: bool,
    pub admin_up: bool,
    pub oper_up: bool,
    pub in_octets: u64,
    pub in_ucast_pkts: u32,
    pub in_mcast_pkts: u32,
    pub in_bcast_pkts: u32,
    pub in_discards: u32,
    pub in_errors: u32,
    pub out_octets: u64,
    pub out_ucast_pkts: u32,
    pub out_mcast_pkts: u32,
    pub out_bcast_pkts: u32,
    pub out_discards: u32,
    pub out_errors: u32,
}

/// Counters that never counted anything.
pub open spec fn no_counters() -> InterfaceCounters {
    InterfaceCounters {
        if_index: 0,
        if_type: 0,
        if_speed_bps: 0,
        full_duplex: false,
        admin_up: false,
        oper_up: false,
        in_octets: 0,
        in_ucast_pkts: 0,
        in_mcast_pkts: 0,
        in_bcast_pkts: 0,
        in_discards: 0,
        in_errors: 0,
        out_octets: 0,
        out_ucast_pkts: 0,
        out_mcast_pkts: 0,
        out_bcast_pkts: 0,
        out_discards: 0,
        out_errors: 0,
    }
}

impl Default for InterfaceCounters {
    fn default() -> (r: InterfaceCounters)
        ensures
            r == no_counters(),
    {
        InterfaceCounters {
            if_index: 0,
            if_type: 0,
            if_speed_bps: 0,
            full_duplex: false,
            admin_up: false,
            oper_up: false,
            in_octets: 0,
            in_ucast_pkts: 0,
            in_mcast_pkts: 0,
            in_bcast_pkts: 0,
            in_discards: 0,
            in_errors: 0,
            out_octets: 0,
            out_ucast_pkts: 0,
            out_mcast_pkts: 0,
            out_bcast_pkts: 0,
            out_discards: 0,
            out_errors: 0,
        }
    }
}

// --------------------------------------------------------------- encoding

/// An XDR writer: every field is big-endian and four-byte aligned.
#[derive(Debug)]
pub struct Xdr {
    pub out: Vec<u8>,
}

impl Default for Xdr {
    fn default() -> (r: Xdr)
        ensures
            r.out@.len() == 0,
    {
        Xdr { out: Vec::new() }
    }
}

/// How many bytes pad a run of bytes to a multiple of four.
pub open spec fn padding(len: nat) -> nat {
    ((4 - len as int % 4) % 4) as nat
}

/// Opaque bytes: the length, the bytes, then padding to four.
pub open spec fn opaque_bytes(bytes: Seq<u8>) -> Seq<u8> {
    crate::bytes::be32(
        if bytes.len() <= u32::MAX {
            bytes.len() as u32
        } else {
            u32::MAX
        },
    ) + bytes + Seq::new(padding(bytes.len()), |i: int| 0u8)
}

/// A body behind its length.
pub open spec fn sized_bytes(body: Seq<u8>) -> Seq<u8> {
    crate::bytes::be32(
        if body.len() <= u32::MAX {
            body.len() as u32
        } else {
            0
        },
    ) + body
}

impl Xdr {
    pub fn word(&mut self, value: u32)
        ensures
            final(self).out@ == old(self).out@ + crate::bytes::be32(value),
    {
        push_be32(&mut self.out, value);
    }

    pub fn long(&mut self, value: u64)
        ensures
            final(self).out@ == old(self).out@ + crate::bytes::be64(value),
    {
        push_be64(&mut self.out, value);
    }

    /// Opaque bytes: the length, the bytes, then padding to four.
    pub fn opaque(&mut self, bytes: &[u8])
        ensures
            final(self).out@ == old(self).out@ + opaque_bytes(bytes@),
    {
        let ghost before = self.out@;
        let len: usize = bytes.len();
        let count: u32 = if len as u64 <= u32::MAX as u64 {
            len as u32
        } else {
            u32::MAX
        };
        push_be32(&mut self.out, count);
        push_all(&mut self.out, bytes);
        push_fill(&mut self.out, 0, (4 - len % 4) % 4);
        assert(self.out@ =~= before + opaque_bytes(bytes@));
    }

    /// A body behind its length.
    pub fn sized(&mut self, body: &Xdr)
        ensures
            final(self).out@ == old(self).out@ + sized_bytes(body.out@),
    {
        let ghost before = self.out@;
        let len: usize = body.out.len();
        let count: u32 = if len as u64 <= u32::MAX as u64 {
            len as u32
        } else {
            0
        };
        push_be32(&mut self.out, count);
        push_all(&mut self.out, body.out.as_slice());
        assert(self.out@ =~= before + sized_bytes(body.out@));
    }
}

/// One sample inside a datagram.
#[derive(Debug, Clone)]
pub enum Record {
    Flow {
        sequence: u32,
        if_index: u32,
        sampling_rate: u32,
        /// Packets the sampler has seen on this source.
        sample_pool: u32,
        drops: u32,
        frame_length: u32,
        header: Vec<u8>,
    },
    Counters { sequence: u32, counters: InterfaceCounters },
}

/// A sample as mathematical values.
pub enum RecordModel {
    Flow {
        sequence: u32,
        if_index: u32,
        sampling_rate: u32,
        sample_pool: u32,
        drops: u32,
        frame_length: u32,
        header: Seq<u8>,
    },
    Counters { sequence: u32, counters: InterfaceCounters },
}

impl DeepView for Record {
    type V = RecordModel;

    open spec fn deep_view(&self) -> RecordModel {
        match *self {
            Record::Flow {
                sequence,
                if_index,
                sampling_rate,
                sample_pool,
                drops,
                frame_length,
                header,
            } => RecordModel::Flow {
                sequence,
                if_index,
                sampling_rate,
                sample_pool,
                drops,
                frame_length,
                header: header@,
            },
            Record::Counters { sequence, counters } => RecordModel::Counters {
                sequence,
                counters,
            },
        }
    }
}

/// The raw-packet-header record of a flow sample: protocol 1 = ethernet, the
/// wire length, the bytes removed from the original (the FCS), the header.
pub open spec fn raw_header(frame_length: u32, header: Seq<u8>) -> Seq<u8> {
    crate::bytes::be32(1) + crate::bytes::be32(frame_length) + crate::bytes::be32(4) + opaque_bytes(header)
}

/// The body of a flow sample. The source id has type 0 (ifIndex) in the top
/// byte; the egress interface is unknown at sampling time.
#[verifier::opaque]
pub open spec fn flow_body(
    sequence: u32,
    if_index: u32,
    sampling_rate: u32,
    sample_pool: u32,
    drops: u32,
    frame_length: u32,
    header: Seq<u8>,
) -> Seq<u8> {
    crate::bytes::be32(sequence) + crate::bytes::be32((if_index % 0x100_0000) as u32) + crate::bytes::be32(sampling_rate) + crate::bytes::be32(sample_pool)
        + crate::bytes::be32(drops) + crate::bytes::be32(if_index) + crate::bytes::be32(0) + crate::bytes::be32(1) + crate::bytes::be32(1) + sized_bytes(
        raw_header(frame_length, header),
    )
}

/// What a port is and how it stands. ifDirection: 1 full-duplex, 2
/// half-duplex; ifStatus: bit 0 admin up, bit 1 oper up.
pub open spec fn link_words(c: InterfaceCounters) -> Seq<u8> {
    crate::bytes::be32(c.if_index) + crate::bytes::be32(c.if_type) + crate::bytes::be64(c.if_speed_bps) + crate::bytes::be32(
        if c.full_duplex {
            1
        } else {
            2
        },
    ) + crate::bytes::be32(status_word(c))
}

/// The counters of one direction; what the ASIC does not count is 0.
pub open spec fn direction_words(
    octets: u64,
    ucast: u32,
    mcast: u32,
    bcast: u32,
    discards: u32,
    errors: u32,
) -> Seq<u8> {
    crate::bytes::be64(octets) + crate::bytes::be32(ucast) + crate::bytes::be32(mcast) + crate::bytes::be32(bcast) + crate::bytes::be32(discards) + crate::bytes::be32(errors) + crate::bytes::be32(0)
}

/// The generic interface counters record.
pub open spec fn generic_counters(c: InterfaceCounters) -> Seq<u8> {
    link_words(c) + direction_words(
        c.in_octets,
        c.in_ucast_pkts,
        c.in_mcast_pkts,
        c.in_bcast_pkts,
        c.in_discards,
        c.in_errors,
    ) + direction_words(
        c.out_octets,
        c.out_ucast_pkts,
        c.out_mcast_pkts,
        c.out_bcast_pkts,
        c.out_discards,
        c.out_errors,
    )
}

pub open spec fn status_word(c: InterfaceCounters) -> u32 {
    if c.admin_up && c.oper_up {
        3
    } else if c.oper_up {
        2
    } else if c.admin_up {
        1
    } else {
        0
    }
}

/// The body of a counters sample.
#[verifier::opaque]
pub open spec fn counters_body(sequence: u32, c: InterfaceCounters) -> Seq<u8> {
    crate::bytes::be32(sequence) + crate::bytes::be32((c.if_index % 0x100_0000) as u32) + crate::bytes::be32(1) + crate::bytes::be32(1) + sized_bytes(
        generic_counters(c),
    )
}

/// A sample on the wire: type 1 = flow sample, 2 = counters sample.
#[verifier::opaque]
pub open spec fn record_bytes(r: RecordModel) -> Seq<u8> {
    match r {
        RecordModel::Flow {
            sequence,
            if_index,
            sampling_rate,
            sample_pool,
            drops,
            frame_length,
            header,
        } => crate::bytes::be32(1) + sized_bytes(
            flow_body(
                sequence,
                if_index,
                sampling_rate,
                sample_pool,
                drops,
                frame_length,
                header,
            ),
        ),
        RecordModel::Counters { sequence, counters } => crate::bytes::be32(2) + sized_bytes(
            counters_body(sequence, counters),
        ),
    }
}

fn write_flow(
    xdr: &mut Xdr,
    sequence: u32,
    if_index: u32,
    sampling_rate: u32,
    sample_pool: u32,
    drops: u32,
    frame_length: u32,
    header: &Vec<u8>,
)
    ensures
        final(xdr).out@ == old(xdr).out@ + flow_body(
            sequence,
            if_index,
            sampling_rate,
            sample_pool,
            drops,
            frame_length,
            header@,
        ),
{
    let ghost before = xdr.out@;
    let mut raw = Xdr::default();
    raw.word(1);  // header protocol 1 = ethernet
    raw.word(frame_length);
    raw.word(4);  // bytes removed from the original: the FCS
    raw.opaque(header.as_slice());
    assert(raw.out@ =~= raw_header(frame_length, header@));
    xdr.word(sequence);
    // source_id: type 0 (ifIndex) in the top byte.
    xdr.word(if_index % 0x100_0000);
    xdr.word(sampling_rate);
    xdr.word(sample_pool);
    xdr.word(drops);
    xdr.word(if_index);
    xdr.word(0);  // egress interface is unknown at sampling time
    xdr.word(1);  // one flow record
    xdr.word(1);  // data format 1 = raw packet header
    xdr.sized(&raw);
    proof {
        reveal(flow_body);
    }
    assert(xdr.out@ =~= before + flow_body(
        sequence,
        if_index,
        sampling_rate,
        sample_pool,
        drops,
        frame_length,
        header@,
    ));
}

fn write_link(xdr: &mut Xdr, c: &InterfaceCounters)
    ensures
        final(xdr).out@ == old(xdr).out@ + link_words(*c),
{
    let ghost before = xdr.out@;
    xdr.word(c.if_index);
    xdr.word(c.if_type);
    xdr.long(c.if_speed_bps);
    xdr.word(
        if c.full_duplex {
            1
        } else {
            2
        },
    );
    let status: u32 = if c.admin_up && c.oper_up {
        3
    } else if c.oper_up {
        2
    } else if c.admin_up {
        1
    } else {
        0
    };
    xdr.word(status);
    assert(xdr.out@ =~= before + link_words(*c));
}

fn write_direction(
    xdr: &mut Xdr,
    octets: u64,
    ucast: u32,
    mcast: u32,
    bcast: u32,
    discards: u32,
    errors: u32,
)
    ensures
        final(xdr).out@ == old(xdr).out@ + direction_words(
            octets,
            ucast,
            mcast,
            bcast,
            discards,
            errors,
        ),
{
    let ghost before = xdr.out@;
    xdr.long(octets);
    xdr.word(ucast);
    xdr.word(mcast);
    xdr.word(bcast);
    xdr.word(discards);
    xdr.word(errors);
    // ifInUnknownProtos, which the ASIC does not count, and
    // ifPromiscuousMode, never on a switch port.
    xdr.word(0);
    assert(xdr.out@ =~= before + direction_words(octets, ucast, mcast, bcast, discards, errors));
}

fn write_generic(xdr: &mut Xdr, c: &InterfaceCounters)
    ensures
        final(xdr).out@ == old(xdr).out@ + generic_counters(*c),
{
    let ghost before = xdr.out@;
    write_link(xdr, c);
    write_direction(
        xdr,
        c.in_octets,
        c.in_ucast_pkts,
        c.in_mcast_pkts,
        c.in_bcast_pkts,
        c.in_discards,
        c.in_errors,
    );
    write_direction(
        xdr,
        c.out_octets,
        c.out_ucast_pkts,
        c.out_mcast_pkts,
        c.out_bcast_pkts,
        c.out_discards,
        c.out_errors,
    );
    assert(xdr.out@ =~= before + generic_counters(*c));
}

fn write_counters(xdr: &mut Xdr, sequence: u32, c: &InterfaceCounters)
    ensures
        final(xdr).out@ == old(xdr).out@ + counters_body(sequence, *c),
{
    let ghost before = xdr.out@;
    let mut generic = Xdr::default();
    write_generic(&mut generic, c);
    assert(generic.out@ =~= generic_counters(*c));
    xdr.word(sequence);
    xdr.word(c.if_index % 0x100_0000);
    xdr.word(1);  // one counter record
    xdr.word(1);  // data format 1 = generic interface
    xdr.sized(&generic);
    proof {
        reveal(counters_body);
    }
    assert(xdr.out@ =~= before + counters_body(sequence, *c));
}

impl Record {
    pub fn encode(&self, xdr: &mut Xdr)
        ensures
            final(xdr).out@ == old(xdr).out@ + record_bytes(self.deep_view()),
    {
        let ghost before = xdr.out@;
        let mut body = Xdr::default();
        match self {
            Record::Flow {
                sequence,
                if_index,
                sampling_rate,
                sample_pool,
                drops,
                frame_length,
                header,
            } => {
                // sample_type 1 = flow sample (enterprise 0).
                xdr.word(1);
                write_flow(
                    &mut body,
                    *sequence,
                    *if_index,
                    *sampling_rate,
                    *sample_pool,
                    *drops,
                    *frame_length,
                    header,
                );
                assert(body.out@ =~= flow_body(
                    *sequence,
                    *if_index,
                    *sampling_rate,
                    *sample_pool,
                    *drops,
                    *frame_length,
                    header@,
                ));
            },
            Record::Counters { sequence, counters } => {
                // sample_type 2 = counters sample.
                xdr.word(2);
                write_counters(&mut body, *sequence, counters);
                assert(body.out@ =~= counters_body(*sequence, *counters));
            },
        }
        xdr.sized(&body);
        assert(xdr.out@ =~= before + record_bytes(self.deep_view())) by {
            reveal(record_bytes);
        }
    }

    /// The bytes this record adds to a datagram.
    pub fn encoded_len(&self) -> (r: usize)
        ensures
            r == record_bytes(self.deep_view()).len(),
    {
        let mut xdr = Xdr::default();
        self.encode(&mut xdr);
        assert(xdr.out@ =~= record_bytes(self.deep_view()));
        xdr.out.len()
    }
}

/// How long a sample is on the wire.
pub open spec fn record_size(r: RecordModel) -> nat {
    match r {
        RecordModel::Flow { header, .. } => 64 + header.len() + padding(header.len()),
        RecordModel::Counters { .. } => 116,
    }
}

/// A flow sample is 64 bytes and its padded header; a counters sample is
/// always 116 bytes. Every sample ends on a four-byte boundary.
pub proof fn lemma_record_size(r: RecordModel)
    ensures
        record_bytes(r).len() == record_size(r),
        record_bytes(r).len() % 4 == 0,
{
    match r {
        RecordModel::Flow {
            sequence,
            if_index,
            sampling_rate,
            sample_pool,
            drops,
            frame_length,
            header,
        } => {
            lemma_flow_size(
                sequence,
                if_index,
                sampling_rate,
                sample_pool,
                drops,
                frame_length,
                header,
            );
            let body = flow_body(
                sequence,
                if_index,
                sampling_rate,
                sample_pool,
                drops,
                frame_length,
                header,
            );
            lemma_framed_size(1, body);
            assert(record_bytes(r).len() == (crate::bytes::be32(1) + sized_bytes(body)).len()) by {
                reveal(record_bytes);
            }
            lemma_padding(header.len());
        },
        RecordModel::Counters { sequence, counters } => {
            let body = counters_body(sequence, counters);
            lemma_counters_size(sequence, counters);
            lemma_framed_size(2, body);
            assert(record_bytes(r).len() == (crate::bytes::be32(2) + sized_bytes(body)).len()) by {
                reveal(record_bytes);
            }
        },
    }
}

proof fn lemma_framed_size(kind: u32, body: Seq<u8>)
    ensures
        (crate::bytes::be32(kind) + sized_bytes(body)).len() == 8 + body.len(),
{
}

proof fn lemma_padding(len: nat)
    ensures
        (len + padding(len)) % 4 == 0,
{
}

proof fn lemma_flow_size(
    sequence: u32,
    if_index: u32,
    sampling_rate: u32,
    sample_pool: u32,
    drops: u32,
    frame_length: u32,
    header: Seq<u8>,
)
    ensures
        flow_body(
            sequence,
            if_index,
            sampling_rate,
            sample_pool,
            drops,
            frame_length,
            header,
        ).len() == 56 + header.len() + padding(header.len()),
{
    reveal(flow_body);
    assert(opaque_bytes(header).len() == 4 + header.len() + padding(header.len()));
    assert(raw_header(frame_length, header).len() == 16 + header.len() + padding(header.len()));
}

proof fn lemma_counters_size(sequence: u32, c: InterfaceCounters)
    ensures
        counters_body(sequence, c).len() == 108,
{
    reveal(counters_body);
    lemma_generic_size(c);
}

/// The generic interface record is always 88 bytes.
pub proof fn lemma_generic_size(c: InterfaceCounters)
    ensures
        generic_counters(c).len() == 88,
{
    assert(link_words(c).len() == 24);
    assert(direction_words(
        c.in_octets,
        c.in_ucast_pkts,
        c.in_mcast_pkts,
        c.in_bcast_pkts,
        c.in_discards,
        c.in_errors,
    ).len() == 32);
    assert(direction_words(
        c.out_octets,
        c.out_ucast_pkts,
        c.out_mcast_pkts,
        c.out_bcast_pkts,
        c.out_discards,
        c.out_errors,
    ).len() == 32);
}

/// One sFlow v5 datagram.
#[derive(Debug, Clone)]
pub struct Datagram {
    pub agent_address: Ipv4,
    pub sub_agent_id: u32,
    pub sequence: u32,
    /// Milliseconds since the agent started.
    pub uptime_ms: u32,
    pub records: Vec<Record>,
}

/// A datagram as mathematical values.
#[verifier::ext_equal]
pub struct DatagramModel {
    pub agent_address: Ipv4,
    pub sub_agent_id: u32,
    pub sequence: u32,
    pub uptime_ms: u32,
    pub records: Seq<RecordModel>,
}

impl DeepView for Datagram {
    type V = DatagramModel;

    open spec fn deep_view(&self) -> DatagramModel {
        DatagramModel {
            agent_address: self.agent_address,
            sub_agent_id: self.sub_agent_id,
            sequence: self.sequence,
            uptime_ms: self.uptime_ms,
            records: self.records.deep_view(),
        }
    }
}

/// The first `n` samples on the wire.
pub open spec fn records_bytes(records: Seq<RecordModel>, n: int) -> Seq<u8>
    decreases n,
{
    if n <= 0 {
        Seq::empty()
    } else {
        records_bytes(records, n - 1) + record_bytes(records[n - 1])
    }
}

/// The seven fixed words of a datagram.
pub open spec fn header_bytes(d: DatagramModel) -> Seq<u8> {
    crate::bytes::be32(5) + crate::bytes::be32(1) + crate::bytes::be32(d.agent_address.bits) + crate::bytes::be32(d.sub_agent_id) + crate::bytes::be32(d.sequence) + crate::bytes::be32(
        d.uptime_ms,
    ) + crate::bytes::be32(
        if d.records.len() <= u32::MAX {
            d.records.len() as u32
        } else {
            0
        },
    )
}

/// A datagram on the wire.
pub open spec fn datagram_bytes(d: DatagramModel) -> Seq<u8> {
    header_bytes(d) + records_bytes(d.records, d.records.len() as int)
}

impl Datagram {
    pub fn encode(&self) -> (r: Vec<u8>)
        ensures
            r@ == datagram_bytes(self.deep_view()),
    {
        let ghost d = self.deep_view();
        assert(d.records.len() == self.records@.len());
        let mut xdr = Xdr::default();
        xdr.word(5);  // version
        xdr.word(1);  // agent address type 1 = IPv4
        xdr.word(self.agent_address.bits);
        xdr.word(self.sub_agent_id);
        xdr.word(self.sequence);
        xdr.word(self.uptime_ms);
        let len: usize = self.records.len();
        let count: u32 = if len as u64 <= u32::MAX as u64 {
            len as u32
        } else {
            0
        };
        xdr.word(count);
        assert(xdr.out@ =~= header_bytes(d));
        let mut i: usize = 0;
        assert(header_bytes(d) + records_bytes(d.records, 0) =~= header_bytes(d));
        while i < self.records.len()
            invariant
                i <= self.records@.len(),
                d == self.deep_view(),
                xdr.out@ == header_bytes(d) + records_bytes(d.records, i as int),
            decreases self.records@.len() - i,
        {
            assert(d.records[i as int] == self.records@[i as int].deep_view());
            self.records[i].encode(&mut xdr);
            i = i + 1;
            assert(xdr.out@ =~= header_bytes(d) + records_bytes(d.records, i as int));
        }
        xdr.out
    }
}

// -------------------------------------------------------------- engine

#[derive(Debug, Clone, Copy)]
pub struct Counters {
    pub samples_taken: u64,
    pub counter_samples: u64,
    pub datagrams_sent: u64,
    pub datagrams_failed: u64,
}

/// What an operator is shown.
#[derive(Debug, Clone)]
pub struct Snapshot {
    pub config: Config,
    pub samples_taken: u64,
    pub counter_samples: u64,
    pub datagrams_sent: u64,
    pub datagrams_failed: u64,
}

/// The exporter's state.
pub struct Engine {
    pub config: Config,
    pub counters: Counters,
    /// Datagram sequence number (per agent, not per collector).
    pub sequence: u32,
    /// Per-source flow-sample sequence numbers, keyed by ifIndex.
    pub flow_sequences: OrdMap<u32, u32>,
    /// Per-source counter-sample sequence numbers.
    pub counter_sequences: OrdMap<u32, u32>,
    /// Packets the sampler is estimated to have seen per source: the
    /// `sample_pool` a collector scales by.
    pub sample_pool: OrdMap<u32, u32>,
    /// Records waiting to be packed into a datagram.
    pub pending: Vec<Record>,
    pub pending_bytes: usize,
    /// When the oldest of them was queued.
    pub first_pending: Option<u64>,
    /// When the agent started.
    pub started: u64,
}

/// The exporter's state as mathematical values.
#[verifier::ext_equal]
pub struct EngineModel {
    pub config: Config,
    pub counters: Counters,
    pub sequence: u32,
    pub flow_sequences: Map<u32, u32>,
    pub counter_sequences: Map<u32, u32>,
    pub sample_pool: Map<u32, u32>,
    pub pending: Seq<RecordModel>,
    pub first_pending: Option<u64>,
    pub started: u64,
}

impl View for Engine {
    type V = EngineModel;

    open spec fn view(&self) -> EngineModel {
        EngineModel {
            config: self.config,
            counters: self.counters,
            sequence: self.sequence,
            flow_sequences: self.flow_sequences@,
            counter_sequences: self.counter_sequences@,
            sample_pool: self.sample_pool@,
            pending: self.pending.deep_view(),
            first_pending: self.first_pending,
            started: self.started,
        }
    }
}

/// The bytes a datagram of the queued samples would have.
pub open spec fn queued_bytes(m: EngineModel) -> int {
    HEADER_BYTES + records_bytes(m.pending, m.pending.len() as int).len()
}

/// The queue fits one datagram, and is waiting since some moment exactly
/// where it holds something.
pub open spec fn queue_fits(m: EngineModel) -> bool {
    &&& queued_bytes(m) <= MAX_DATAGRAM_BYTES
    &&& m.first_pending is Some <==> m.pending.len() > 0
}

/// The next number of a wrapping sequence.
pub open spec fn next_number(n: u32) -> u32 {
    if n == u32::MAX {
        0
    } else {
        (n + 1) as u32
    }
}

/// What stands under a source, 0 for one that was never seen.
pub open spec fn count_of(m: Map<u32, u32>, key: u32) -> u32 {
    if m.dom().contains(key) {
        m[key]
    } else {
        0
    }
}

pub open spec fn uptime(started: u64, now: u64) -> u32 {
    if crate::clock::since(now, started) <= u32::MAX {
        crate::clock::since(now, started) as u32
    } else {
        u32::MAX
    }
}

/// The datagram that everything queued makes.
pub open spec fn sealed_datagram(m: EngineModel, now: u64) -> DatagramModel {
    DatagramModel {
        agent_address: m.config.agent_address,
        sub_agent_id: 0,
        sequence: next_number(m.sequence),
        uptime_ms: uptime(m.started, now),
        records: m.pending,
    }
}

/// The state once everything queued was taken.
pub open spec fn sealed(m: EngineModel) -> EngineModel {
    EngineModel {
        sequence: next_number(m.sequence),
        pending: Seq::empty(),
        first_pending: None,
        ..m
    }
}

/// Would one more record overflow the datagram that is being packed?
pub open spec fn overflows(m: EngineModel, r: RecordModel) -> bool {
    m.pending.len() > 0 && queued_bytes(m) + record_bytes(r).len() > MAX_DATAGRAM_BYTES
}

/// The datagram that queueing a record makes due.
pub open spec fn pushed_ready(m: EngineModel, r: RecordModel, now: u64) -> Option<DatagramModel> {
    if overflows(m, r) {
        Some(sealed_datagram(m, now))
    } else {
        None
    }
}

/// The state once a record was queued.
pub open spec fn pushed(m: EngineModel, r: RecordModel, now: u64) -> EngineModel {
    let m1 = if overflows(m, r) {
        sealed(m)
    } else {
        m
    };
    EngineModel {
        pending: m1.pending.push(r),
        first_pending: if m1.pending.len() == 0 {
            Some(now)
        } else {
            m1.first_pending
        },
        ..m1
    }
}

pub open spec fn rate_of(c: Config) -> u32 {
    if c.sample_rate == 0 {
        1
    } else {
        c.sample_rate
    }
}

/// The packets a source's samples stand for, one sample later.
pub open spec fn pool_after(m: EngineModel, if_index: u32) -> u32 {
    ((count_of(m.sample_pool, if_index) + rate_of(m.config)) % 0x1_0000_0000) as u32
}

/// The flow record of a sample.
pub open spec fn flow_record(m: EngineModel, if_index: u32, length: u32, bytes: Seq<u8>) -> RecordModel {
    RecordModel::Flow {
        sequence: next_number(count_of(m.flow_sequences, if_index)),
        if_index,
        sampling_rate: rate_of(m.config),
        sample_pool: pool_after(m, if_index),
        drops: 0,
        frame_length: length,
        header: if bytes.len() <= MAX_HEADER_BYTES {
            bytes
        } else {
            bytes.take(MAX_HEADER_BYTES as int)
        },
    }
}

/// The state with a sample counted, before its record is queued.
pub open spec fn sample_counted(m: EngineModel, if_index: u32) -> EngineModel {
    EngineModel {
        counters: Counters {
            samples_taken: (m.counters.samples_taken + 1) as u64,
            ..m.counters
        },
        flow_sequences: m.flow_sequences.insert(
            if_index,
            next_number(count_of(m.flow_sequences, if_index)),
        ),
        sample_pool: m.sample_pool.insert(if_index, pool_after(m, if_index)),
        ..m
    }
}

/// The record that a sample makes.
pub open spec fn sample_record(m: EngineModel, s: Sample) -> RecordModel {
    flow_record(m, s.if_index, s.original_length, s.bytes@)
}

/// The state once a sample was taken; switched off, nothing is taken.
pub open spec fn sample_taken(m: EngineModel, s: Sample, now: u64) -> EngineModel {
    if m.config.enabled {
        pushed(sample_counted(m, s.if_index), sample_record(m, s), now)
    } else {
        m
    }
}

/// The datagram that taking a sample makes due.
pub open spec fn sample_ready(m: EngineModel, s: Sample, now: u64) -> Option<DatagramModel> {
    if m.config.enabled {
        pushed_ready(sample_counted(m, s.if_index), sample_record(m, s), now)
    } else {
        None
    }
}

/// The counters record of a polled port.
pub open spec fn counters_record(m: EngineModel, c: InterfaceCounters) -> RecordModel {
    RecordModel::Counters {
        sequence: next_number(count_of(m.counter_sequences, c.if_index)),
        counters: c,
    }
}

/// The state with a poll counted, before its record is queued.
pub open spec fn poll_counted(m: EngineModel, if_index: u32) -> EngineModel {
    EngineModel {
        counters: Counters {
            counter_samples: (m.counters.counter_samples + 1) as u64,
            ..m.counters
        },
        counter_sequences: m.counter_sequences.insert(
            if_index,
            next_number(count_of(m.counter_sequences, if_index)),
        ),
        ..m
    }
}

/// The state after the first `n` ports of a poll.
pub open spec fn polled(
    m: EngineModel,
    list: Seq<InterfaceCounters>,
    n: int,
    now: u64,
) -> EngineModel
    decreases n,
{
    if n <= 0 {
        m
    } else {
        let before = polled(m, list, n - 1, now);
        pushed(
            poll_counted(before, list[n - 1].if_index),
            counters_record(before, list[n - 1]),
            now,
        )
    }
}

/// The datagrams that the first `n` ports of a poll filled.
pub open spec fn polled_ready(
    m: EngineModel,
    list: Seq<InterfaceCounters>,
    n: int,
    now: u64,
) -> Seq<DatagramModel>
    decreases n,
{
    if n <= 0 {
        Seq::empty()
    } else {
        let before = polled(m, list, n - 1, now);
        let ready = polled_ready(m, list, n - 1, now);
        match pushed_ready(
            poll_counted(before, list[n - 1].if_index),
            counters_record(before, list[n - 1]),
            now,
        ) {
            Some(d) => ready.push(d),
            None => ready,
        }
    }
}

/// Has the queue waited long enough?
pub open spec fn flush_is_due(m: EngineModel, now: u64) -> bool {
    match m.first_pending {
        Some(at) => crate::clock::since(now, at) >= FLUSH_AFTER,
        None => false,
    }
}

/// The state under another configuration. Turning sFlow off discards
/// anything still queued.
pub open spec fn configured(m: EngineModel, config: Config) -> EngineModel {
    if config.enabled {
        EngineModel { config, ..m }
    } else {
        EngineModel { config, pending: Seq::empty(), first_pending: None, ..m }
    }
}

fn bump(sequences: &mut OrdMap<u32, u32>, key: u32) -> (r: u32)
    requires
        old(sequences).wf(),
    ensures
        final(sequences).wf(),
        r == next_number(count_of(old(sequences)@, key)),
        final(sequences)@ == old(sequences)@.insert(key, r),
{
    let before: u32 = match sequences.get(&key) {
        Some(n) => *n,
        None => 0,
    };
    let after: u32 = if before == u32::MAX {
        0
    } else {
        before + 1
    };
    sequences.insert(key, after);
    after
}

impl Engine {
    pub open spec fn wf(&self) -> bool {
        &&& self.flow_sequences.wf()
        &&& self.counter_sequences.wf()
        &&& self.sample_pool.wf()
        &&& self.pending_bytes == queued_bytes(self@)
        &&& queue_fits(self@)
    }

    pub fn new(now: u64) -> (r: Engine)
        ensures
            r.wf(),
            !r.config.enabled,
            r.config.collectors@.len() == 0,
            r.config.sample_rate == 0,
            r.config.polling_interval == 0,
            r.config.agent_address.bits == 0,
            r.config.agent_interface@.len() == 0,
            r.config.enabled_ports@.len() == 0,
            r.config.disabled_ports@.len() == 0,
            r@ == (EngineModel {
                config: r.config,
                counters: (Counters {
                    samples_taken: 0,
                    counter_samples: 0,
                    datagrams_sent: 0,
                    datagrams_failed: 0,
                }),
                sequence: 0,
                flow_sequences: Map::empty(),
                counter_sequences: Map::empty(),
                sample_pool: Map::empty(),
                pending: Seq::empty(),
                first_pending: None,
                started: now,
            }),
    {
        let r = Engine {
            config: Config::default(),
            counters: Counters {
                samples_taken: 0,
                counter_samples: 0,
                datagrams_sent: 0,
                datagrams_failed: 0,
            },
            sequence: 0,
            flow_sequences: OrdMap::new(),
            counter_sequences: OrdMap::new(),
            sample_pool: OrdMap::new(),
            pending: Vec::new(),
            pending_bytes: HEADER_BYTES,
            first_pending: None,
            started: now,
        };
        assert(r@.pending =~= Seq::empty());
        r
    }

    /// Replace the configuration (declarative). Turning sFlow off
    /// discards anything still queued: a collector that comes back
    /// wants current samples, not a backlog.
    pub fn set_config(&mut self, config: Config)
        requires
            old(self).wf(),
        ensures
            final(self).wf(),
            final(self)@ == configured(old(self)@, config),
    {
        if !config.enabled {
            self.pending = Vec::new();
            self.pending_bytes = HEADER_BYTES;
            self.first_pending = None;
        }
        self.config = config;
        assert(!config.enabled ==> self@.pending =~= Seq::empty());
    }

    pub fn config(&self) -> (r: Config)
        ensures
            same_config(r, self.config),
    {
        self.config.copy()
    }

    pub fn snapshot(&self) -> (r: Snapshot)
        ensures
            same_config(r.config, self.config),
            r.samples_taken == self.counters.samples_taken,
            r.counter_samples == self.counters.counter_samples,
            r.datagrams_sent == self.counters.datagrams_sent,
            r.datagrams_failed == self.counters.datagrams_failed,
    {
        Snapshot {
            config: self.config.copy(),
            samples_taken: self.counters.samples_taken,
            counter_samples: self.counters.counter_samples,
            datagrams_sent: self.counters.datagrams_sent,
            datagrams_failed: self.counters.datagrams_failed,
        }
    }

    /// Queue one hardware sample. The datagram to send comes back when
    /// this sample filled one.
    pub fn take_sample(&mut self, sample: &Sample, now: u64) -> (r: Option<Datagram>)
        requires
            old(self).wf(),
            old(self).counters.samples_taken < u64::MAX,
        ensures
            final(self).wf(),
            final(self)@ == sample_taken(old(self)@, *sample, now),
            ready_model(r) == sample_ready(old(self)@, *sample, now),
    {
        if !self.config.enabled {
            return None;
        }
        let ghost m = self@;
        self.counters.samples_taken = self.counters.samples_taken + 1;
        let sequence: u32 = bump(&mut self.flow_sequences, sample.if_index);
        let rate: u32 = if self.config.sample_rate == 0 {
            1
        } else {
            self.config.sample_rate
        };
        // Each sample stands for `rate` packets; the pool is the
        // collector's scaling factor.
        let seen: u32 = match self.sample_pool.get(&sample.if_index) {
            Some(n) => *n,
            None => 0,
        };
        let pool: u32 = seen.wrapping_add(rate);
        self.sample_pool.insert(sample.if_index, pool);
        let len: usize = sample.bytes.len();
        let header: Vec<u8> = copy_bytes(
            sample.bytes.as_slice(),
            0,
            if len <= MAX_HEADER_BYTES {
                len
            } else {
                MAX_HEADER_BYTES
            },
        );
        let record = Record::Flow {
            sequence,
            if_index: sample.if_index,
            sampling_rate: rate,
            sample_pool: pool,
            drops: 0,
            frame_length: sample.original_length,
            header,
        };
        proof {
            assert(pool == pool_after(m, sample.if_index));
            assert(header@ =~= if len <= MAX_HEADER_BYTES {
                sample.bytes@
            } else {
                sample.bytes@.take(MAX_HEADER_BYTES as int)
            });
            assert(record.deep_view() == flow_record(
                m,
                sample.if_index,
                sample.original_length,
                sample.bytes@,
            ));
            assert(self@ =~= sample_counted(m, sample.if_index));
            lemma_record_size(record.deep_view());
        }
        self.push(record, now)
    }

    /// Queue one poll's worth of counter samples; whatever datagrams they
    /// filled come back.
    pub fn take_counters(&mut self, list: &[InterfaceCounters], now: u64) -> (r: Vec<Datagram>)
        requires
            old(self).wf(),
            old(self).counters.counter_samples + list@.len() <= u64::MAX,
        ensures
            final(self).wf(),
            !old(self).config.enabled ==> r@.len() == 0 && final(self)@ == old(self)@,
            old(self).config.enabled ==> final(self)@ == polled(
                old(self)@,
                list@,
                list@.len() as int,
                now,
            ),
            old(self).config.enabled ==> r.deep_view() == polled_ready(
                old(self)@,
                list@,
                list@.len() as int,
                now,
            ),
    {
        let mut ready: Vec<Datagram> = Vec::new();
        if !self.config.enabled {
            return ready;
        }
        let ghost m = self@;
        let mut i: usize = 0;
        assert(ready.deep_view() =~= Seq::empty());
        while i < list.len()
            invariant
                i <= list@.len(),
                self.wf(),
                m.counters.counter_samples + list@.len() <= u64::MAX,
                self.counters.counter_samples == m.counters.counter_samples + i,
                self@ == polled(m, list@, i as int, now),
                ready.deep_view() == polled_ready(m, list@, i as int, now),
            decreases list@.len() - i,
        {
            let ghost before = self@;
            let entry = list[i];
            self.counters.counter_samples = self.counters.counter_samples + 1;
            let sequence: u32 = bump(&mut self.counter_sequences, entry.if_index);
            let record = Record::Counters { sequence, counters: entry };
            assert(self@ =~= poll_counted(before, entry.if_index));
            assert(record.deep_view() == counters_record(before, entry));
            proof {
                lemma_record_size(record.deep_view());
            }
            let ghost had = ready.deep_view();
            match self.push(record, now) {
                Some(datagram) => {
                    ready.push(datagram);
                    assert(ready.deep_view() =~= had.push(datagram.deep_view()));
                },
                None => {},
            }
            i = i + 1;
        }
        ready
    }

    /// The datagram a partly-filled queue owes once it has waited long
    /// enough: the pacing half of the exporter.
    pub fn flush_due(&mut self, now: u64) -> (r: Option<Datagram>)
        requires
            old(self).wf(),
        ensures
            final(self).wf(),
            flush_is_due(old(self)@, now) ==> ready_model(r) == Some(
                sealed_datagram(old(self)@, now),
            ) && final(self)@ == sealed(old(self)@),
            !flush_is_due(old(self)@, now) ==> r is None && final(self)@ == old(self)@,
    {
        let waited: bool = match self.first_pending {
            Some(at) => elapsed(now, at) >= FLUSH_AFTER,
            None => false,
        };
        if !waited || self.pending.len() == 0 {
            return None;
        }
        Some(self.seal(now))
    }

    /// Count one collector's copy of a datagram.
    pub fn count_send(&mut self, ok: bool)
        requires
            old(self).wf(),
            old(self).counters.datagrams_sent < u64::MAX,
            old(self).counters.datagrams_failed < u64::MAX,
        ensures
            final(self).wf(),
            final(self)@ == (EngineModel {
                counters: if ok {
                    Counters {
                        datagrams_sent: (old(self).counters.datagrams_sent + 1) as u64,
                        ..old(self).counters
                    }
                } else {
                    Counters {
                        datagrams_failed: (old(self).counters.datagrams_failed + 1) as u64,
                        ..old(self).counters
                    }
                },
                ..old(self)@
            }),
    {
        if ok {
            self.counters.datagrams_sent = self.counters.datagrams_sent + 1;
        } else {
            self.counters.datagrams_failed = self.counters.datagrams_failed + 1;
        }
    }

    /// Queue a record, sealing a datagram when the next one would not fit.
    fn push(&mut self, record: Record, now: u64) -> (r: Option<Datagram>)
        requires
            old(self).wf(),
            HEADER_BYTES + record_bytes(record.deep_view()).len() <= MAX_DATAGRAM_BYTES,
        ensures
            final(self).wf(),
            final(self).counters == old(self).counters,
            final(self)@ == pushed(old(self)@, record.deep_view(), now),
            ready_model(r) == pushed_ready(old(self)@, record.deep_view(), now),
    {
        let size: usize = record.encoded_len();
        let ready = if self.pending_bytes + size > MAX_DATAGRAM_BYTES && self.pending.len() > 0 {
            Some(self.seal(now))
        } else {
            None
        };
        let ghost m = self@;
        if self.pending.len() == 0 {
            self.first_pending = Some(now);
        }
        self.pending_bytes = self.pending_bytes + size;
        self.pending.push(record);
        proof {
            assert(self@.pending =~= m.pending.push(record.deep_view()));
            lemma_records_prefix(self@.pending, m.pending, m.pending.len() as int);
            assert(queued_bytes(self@) == queued_bytes(m) + size);
        }
        ready
    }

    /// Take everything queued as one datagram.
    fn seal(&mut self, now: u64) -> (r: Datagram)
        requires
            old(self).wf(),
        ensures
            final(self).wf(),
            final(self).counters == old(self).counters,
            final(self)@ == sealed(old(self)@),
            r.deep_view() == sealed_datagram(old(self)@, now),
    {
        let next: u32 = if self.sequence == u32::MAX {
            0
        } else {
            self.sequence + 1
        };
        self.sequence = next;
        let up: u64 = elapsed(now, self.started);
        let uptime_ms: u32 = if up <= u32::MAX as u64 {
            up as u32
        } else {
            u32::MAX
        };
        let mut records: Vec<Record> = Vec::new();
        std::mem::swap(&mut records, &mut self.pending);
        self.pending_bytes = HEADER_BYTES;
        self.first_pending = None;
        assert(self@.pending =~= Seq::empty());
        Datagram {
            agent_address: self.config.agent_address,
            sub_agent_id: 0,
            sequence: next,
            uptime_ms,
            records,
        }
    }
}

/// A datagram that may be ready, as mathematical values.
pub open spec fn ready_model(r: Option<Datagram>) -> Option<DatagramModel> {
    match r {
        Some(d) => Some(d.deep_view()),
        None => None,
    }
}

/// Queues that agree on their first `n` records agree on those records'
/// bytes.
proof fn lemma_records_prefix(a: Seq<RecordModel>, b: Seq<RecordModel>, n: int)
    requires
        n <= a.len(),
        n <= b.len(),
        forall|i: int| 0 <= i < n ==> a[i] == b[i],
    ensures
        records_bytes(a, n) == records_bytes(b, n),
    decreases n,
{
    if n > 0 {
        lemma_records_prefix(a, b, n - 1);
    }
}

// ---------------------------------------------------------------- laws

/// A sealed datagram is as long as was counted for it, and so never longer
/// than a datagram may be.
pub proof fn lemma_datagram_fits(m: EngineModel, now: u64)
    requires
        queue_fits(m),
    ensures
        datagram_bytes(sealed_datagram(m, now)).len() == queued_bytes(m),
        datagram_bytes(sealed_datagram(m, now)).len() <= MAX_DATAGRAM_BYTES,
{
}

/// What sFlow packs is always packed to fit: whatever is sampled, polled or
/// flushed, the queue stays within one datagram.
pub proof fn lemma_push_fits(m: EngineModel, r: RecordModel, now: u64)
    requires
        queue_fits(m),
        r matches RecordModel::Flow { header, .. } ==> header.len() <= MAX_HEADER_BYTES,
    ensures
        queue_fits(pushed(m, r, now)),
        queue_fits(sealed(m)),
{
    lemma_record_size(r);
    let m1 = if overflows(m, r) {
        sealed(m)
    } else {
        m
    };
    lemma_records_prefix(m1.pending.push(r), m1.pending, m1.pending.len() as int);
}

/// The records of a list of datagrams, in the order they leave.
pub open spec fn sent_records(ready: Seq<DatagramModel>, n: int) -> Seq<RecordModel>
    decreases n,
{
    if n <= 0 {
        Seq::empty()
    } else {
        sent_records(ready, n - 1) + ready[n - 1].records
    }
}

/// The records that the first `n` ports of a poll make.
pub open spec fn polled_records(
    m: EngineModel,
    list: Seq<InterfaceCounters>,
    n: int,
    now: u64,
) -> Seq<RecordModel>
    decreases n,
{
    if n <= 0 {
        Seq::empty()
    } else {
        polled_records(m, list, n - 1, now).push(
            counters_record(polled(m, list, n - 1, now), list[n - 1]),
        )
    }
}

proof fn lemma_sent_records_push(ready: Seq<DatagramModel>, d: DatagramModel, n: int)
    requires
        n <= ready.len(),
    ensures
        sent_records(ready.push(d), n) == sent_records(ready, n),
    decreases n,
{
    if n > 0 {
        lemma_sent_records_push(ready, d, n - 1);
    }
}

/// Nothing queued is lost, doubled or reordered: what a poll's datagrams
/// carry, and then what is still queued, is what was queued before and then
/// one record for each polled port.
pub proof fn lemma_poll_keeps_records(
    m: EngineModel,
    list: Seq<InterfaceCounters>,
    n: int,
    now: u64,
)
    requires
        0 <= n <= list.len(),
    ensures
        sent_records(
            polled_ready(m, list, n, now),
            polled_ready(m, list, n, now).len() as int,
        ) + polled(m, list, n, now).pending == m.pending + polled_records(m, list, n, now),
    decreases n,
{
    if n > 0 {
        lemma_poll_keeps_records(m, list, n - 1, now);
        let before = polled(m, list, n - 1, now);
        let ready = polled_ready(m, list, n - 1, now);
        let counted = poll_counted(before, list[n - 1].if_index);
        let record = counters_record(before, list[n - 1]);
        match pushed_ready(counted, record, now) {
            Some(d) => {
                lemma_sent_records_push(ready, d, ready.len() as int);
                assert(sent_records(ready.push(d), ready.push(d).len() as int) == sent_records(
                    ready,
                    ready.len() as int,
                ) + before.pending);
            },
            None => {},
        }
        assert(sent_records(
            polled_ready(m, list, n, now),
            polled_ready(m, list, n, now).len() as int,
        ) + polled(m, list, n, now).pending =~= (sent_records(ready, ready.len() as int)
            + before.pending).push(record));
        assert(m.pending + polled_records(m, list, n, now) =~= (m.pending + polled_records(
            m,
            list,
            n - 1,
            now,
        )).push(record));
    } else {
        assert(sent_records(Seq::<DatagramModel>::empty(), 0) + m.pending =~= m.pending
            + polled_records(m, list, n, now));
    }
}

/// A sequence number `n` later.
pub open spec fn number_after(start: u32, n: nat) -> u32
    decreases n,
{
    if n == 0 {
        start
    } else {
        next_number(number_after(start, (n - 1) as nat))
    }
}

/// The datagrams of a poll are numbered one after the other, from where the
/// agent stood, and the agent stands at the last of them.
pub proof fn lemma_datagrams_number_on(
    m: EngineModel,
    list: Seq<InterfaceCounters>,
    n: int,
    now: u64,
)
    requires
        0 <= n <= list.len(),
    ensures
        polled(m, list, n, now).sequence == number_after(
            m.sequence,
            polled_ready(m, list, n, now).len(),
        ),
        forall|i: int|
            #![trigger polled_ready(m, list, n, now)[i]]
            0 <= i < polled_ready(m, list, n, now).len() ==> polled_ready(m, list, n, now)[i].sequence
                == number_after(m.sequence, (i + 1) as nat),
    decreases n,
{
    if n > 0 {
        lemma_datagrams_number_on(m, list, n - 1, now);
        let before = polled(m, list, n - 1, now);
        let ready = polled_ready(m, list, n - 1, now);
        assert forall|i: int|
            #![trigger polled_ready(m, list, n, now)[i]]
            0 <= i < polled_ready(m, list, n, now).len() implies polled_ready(m, list, n, now)[i].sequence
            == number_after(m.sequence, (i + 1) as nat) by {
            if i < ready.len() {
                assert(polled_ready(m, list, n, now)[i] == ready[i]);
            }
        }
    }
}

/// Short of the wrap a sequence number `n` later is `n` more.
proof fn lemma_number_after(start: u32, n: nat)
    requires
        start + n <= u32::MAX,
    ensures
        number_after(start, n) == start + n,
    decreases n,
{
    if n > 0 {
        lemma_number_after(start, (n - 1) as nat);
    }
}

/// The state once the first `n` samples were taken, each at its time.
pub open spec fn sampled(m: EngineModel, list: Seq<Sample>, times: Seq<u64>, n: int) -> EngineModel
    decreases n,
{
    if n <= 0 {
        m
    } else {
        sample_taken(sampled(m, list, times, n - 1), list[n - 1], times[n - 1])
    }
}

/// The datagrams that the first `n` samples made due, in order.
pub open spec fn sampled_ready(
    m: EngineModel,
    list: Seq<Sample>,
    times: Seq<u64>,
    n: int,
) -> Seq<DatagramModel>
    decreases n,
{
    if n <= 0 {
        Seq::empty()
    } else {
        let ready = sampled_ready(m, list, times, n - 1);
        match sample_ready(sampled(m, list, times, n - 1), list[n - 1], times[n - 1]) {
            Some(d) => ready.push(d),
            None => ready,
        }
    }
}

/// The records that the first `n` samples make.
pub open spec fn sampled_records(
    m: EngineModel,
    list: Seq<Sample>,
    times: Seq<u64>,
    n: int,
) -> Seq<RecordModel>
    decreases n,
{
    if n <= 0 {
        Seq::empty()
    } else {
        sampled_records(m, list, times, n - 1).push(
            sample_record(sampled(m, list, times, n - 1), list[n - 1]),
        )
    }
}

/// A record is the flow record of a sample: the length on the wire, and the
/// front of the frame.
pub open spec fn records_sample(r: RecordModel, s: Sample) -> bool {
    r matches RecordModel::Flow { if_index, frame_length, header, .. } && if_index == s.if_index
        && frame_length == s.original_length && header == (if s.bytes@.len() <= MAX_HEADER_BYTES {
        s.bytes@
    } else {
        s.bytes@.take(MAX_HEADER_BYTES as int)
    })
}

/// Every sample makes one record of its own, in order.
pub proof fn lemma_sample_records(m: EngineModel, list: Seq<Sample>, times: Seq<u64>, n: int)
    requires
        0 <= n <= list.len(),
    ensures
        sampled_records(m, list, times, n).len() == n,
        forall|i: int|
            0 <= i < n ==> records_sample(#[trigger] sampled_records(m, list, times, n)[i], list[i]),
    decreases n,
{
    if n > 0 {
        lemma_sample_records(m, list, times, n - 1);
        let front = sampled_records(m, list, times, n - 1);
        let all = sampled_records(m, list, times, n);
        assert forall|i: int| 0 <= i < n implies records_sample(#[trigger] all[i], list[i]) by {
            if i < n - 1 {
                assert(all[i] == front[i]);
            }
        }
    }
}

/// Nothing sampled is lost, doubled or reordered: what the datagrams of a run
/// of samples carry, and then what is still queued, is what was queued before
/// and then one record for each sample. The datagrams are numbered on from
/// where the agent stood, and none is longer than a datagram may be.
pub proof fn lemma_samples_keep_records(
    m: EngineModel,
    list: Seq<Sample>,
    times: Seq<u64>,
    n: int,
)
    requires
        0 <= n <= list.len(),
        m.config.enabled,
        queue_fits(m),
    ensures
        ({
            let s = sampled(m, list, times, n);
            let ready = sampled_ready(m, list, times, n);
            &&& sent_records(ready, ready.len() as int) + s.pending == m.pending
                + sampled_records(m, list, times, n)
            &&& queue_fits(s)
            &&& s.config == m.config
            &&& s.sequence == number_after(m.sequence, ready.len())
            &&& forall|i: int|
                0 <= i < ready.len() ==> (#[trigger] ready[i]).sequence == number_after(
                    m.sequence,
                    (i + 1) as nat,
                ) && datagram_bytes(ready[i]).len() <= MAX_DATAGRAM_BYTES
        }),
    decreases n,
{
    let s = sampled(m, list, times, n);
    let ready = sampled_ready(m, list, times, n);
    if n > 0 {
        lemma_samples_keep_records(m, list, times, n - 1);
        let before = sampled(m, list, times, n - 1);
        let had = sampled_ready(m, list, times, n - 1);
        let sample = list[n - 1];
        let now = times[n - 1];
        let counted = sample_counted(before, sample.if_index);
        let record = sample_record(before, sample);
        lemma_push_fits(counted, record, now);
        lemma_datagram_fits(counted, now);
        match pushed_ready(counted, record, now) {
            Some(d) => {
                lemma_sent_records_push(had, d, had.len() as int);
                assert(sent_records(ready, ready.len() as int) == sent_records(
                    had,
                    had.len() as int,
                ) + before.pending);
            },
            None => {},
        }
        assert(sent_records(ready, ready.len() as int) + s.pending =~= (sent_records(
            had,
            had.len() as int,
        ) + before.pending).push(record));
        assert(m.pending + sampled_records(m, list, times, n) =~= (m.pending + sampled_records(
            m,
            list,
            times,
            n - 1,
        )).push(record));
        assert forall|i: int| 0 <= i < ready.len() implies (#[trigger] ready[i]).sequence
            == number_after(m.sequence, (i + 1) as nat) && datagram_bytes(ready[i]).len()
            <= MAX_DATAGRAM_BYTES by {
            if i < had.len() {
                assert(ready[i] == had[i]);
            }
        }
    } else {
        assert(sent_records(ready, 0) + m.pending =~= m.pending + sampled_records(
            m,
            list,
            times,
            n,
        ));
    }
}

/// A run of samples and the flush behind it export every sample once and in
/// order: from an agent with nothing queued, the records of the datagrams and
/// then of the flush are the records of the samples, the datagrams are
/// numbered one by one, and each fits.
pub proof fn lemma_sampled_stream(
    m: EngineModel,
    list: Seq<Sample>,
    times: Seq<u64>,
    later: u64,
)
    requires
        m.config.enabled,
        queue_fits(m),
        m.pending.len() == 0,
        flush_is_due(sampled(m, list, times, list.len() as int), later),
        m.sequence + list.len() + 1 <= u32::MAX,
    ensures
        ({
            let n = list.len() as int;
            let s = sampled(m, list, times, n);
            let stream = sampled_ready(m, list, times, n).push(sealed_datagram(s, later));
            let records = sent_records(stream, stream.len() as int);
            &&& records.len() == list.len()
            &&& forall|i: int|
                0 <= i < list.len() ==> records_sample(#[trigger] records[i], list[i])
            &&& forall|i: int|
                0 <= i < stream.len() ==> (#[trigger] stream[i]).sequence == m.sequence + i + 1
                    && datagram_bytes(stream[i]).len() <= MAX_DATAGRAM_BYTES
        }),
{
    let n = list.len() as int;
    let s = sampled(m, list, times, n);
    let ready = sampled_ready(m, list, times, n);
    let last = sealed_datagram(s, later);
    let stream = ready.push(last);
    lemma_samples_keep_records(m, list, times, n);
    lemma_sample_records(m, list, times, n);
    lemma_datagram_fits(s, later);
    lemma_sent_records_push(ready, last, ready.len() as int);
    assert(sent_records(stream, stream.len() as int) == sent_records(ready, ready.len() as int)
        + s.pending);
    assert(m.pending + sampled_records(m, list, times, n) =~= sampled_records(m, list, times, n));
    lemma_ready_bounded(m, list, times, n);
    assert forall|i: int| 0 <= i < stream.len() implies (#[trigger] stream[i]).sequence
        == m.sequence + i + 1 && datagram_bytes(stream[i]).len() <= MAX_DATAGRAM_BYTES by {
        lemma_number_after(m.sequence, (i + 1) as nat);
        if i < ready.len() {
            assert(stream[i] == ready[i]);
        }
    }
}

proof fn lemma_ready_bounded(m: EngineModel, list: Seq<Sample>, times: Seq<u64>, n: int)
    requires
        0 <= n,
    ensures
        sampled_ready(m, list, times, n).len() <= n,
    decreases n,
{
    if n > 0 {
        lemma_ready_bounded(m, list, times, n - 1);
    }
}

/// Switched off, the exporter has nothing to send, whenever it is asked.
pub proof fn lemma_disabled_is_silent(m: EngineModel, config: Config, now: u64)
    requires
        !config.enabled,
    ensures
        configured(m, config).pending.len() == 0,
        !flush_is_due(configured(m, config), now),
{
}

/// What is queued leaves no later than the flush interval after its oldest
/// record came.
pub proof fn lemma_flushed_in_time(m: EngineModel, now: u64)
    requires
        queue_fits(m),
        m.pending.len() > 0,
        now - m.first_pending->0 >= FLUSH_AFTER,
    ensures
        flush_is_due(m, now),
        sealed_datagram(m, now).records == m.pending,
        sealed(m).pending.len() == 0,
{
}

} // verus!
