//! sFlow version 5: records, datagrams and their pacing.

use hemlock::ip::{IpAddr, Ipv4};
use hemlock::sflow::{
    Collector, Config, Datagram, Engine, InterfaceCounters, Record, Sample, Xdr, FLUSH_AFTER,
    HEADER_BYTES, MAX_DATAGRAM_BYTES, MAX_HEADER_BYTES,
};

fn collector(host: u8, port: u16) -> Collector {
    Collector {
        address: IpAddr::V4(Ipv4::new(10, 42, 0, host)),
        port,
    }
}

fn config() -> Config {
    Config {
        enabled: true,
        collectors: vec![
            collector(20, 6343),
            collector(21, 6344),
        ],
        sample_rate: 16384,
        polling_interval: 30,
        agent_address: Ipv4::new(10, 42, 0, 9),
        agent_interface: "Management1".into(),
        enabled_ports: vec!["Ethernet1".into()],
        disabled_ports: vec!["Ethernet4".into()],
    }
}

/// A minimal sampled frame: an IPv4/TCP packet, the shape a
/// collector classifies on.
fn frame() -> Vec<u8> {
    let mut frame = Vec::new();
    frame.extend_from_slice(&[0x2c, 0xdd, 0xe9, 0x77, 0x00, 0x0c]); // dst
    frame.extend_from_slice(&[0x00, 0x1c, 0x73, 0x0c, 0xaa, 0x01]); // src
    frame.extend_from_slice(&[0x08, 0x00]); // IPv4
    frame.extend_from_slice(&[0x45, 0x00, 0x00, 0x3c]);
    frame.extend_from_slice(&[0x1c, 0x46, 0x40, 0x00, 0x40, 0x06, 0x00, 0x00]);
    frame.extend_from_slice(&[10, 0, 10, 101]);
    frame.extend_from_slice(&[10, 42, 0, 5]);
    frame.extend_from_slice(&[0xc3, 0x50, 0x01, 0xbb]);
    frame
}

fn engine() -> Engine {
    let mut engine = Engine::new(0);
    engine.set_config(config());
    engine
}

/// The datagram header is the seven fixed XDR words the v5 spec
/// names, in order.
#[test]
fn datagram_header_is_byte_exact() {
    let datagram = Datagram {
        agent_address: Ipv4::new(10, 42, 0, 9),
        sub_agent_id: 0,
        sequence: 7,
        uptime_ms: 1_234_567,
        records: Vec::new(),
    };
    let bytes = datagram.encode();
    assert_eq!(bytes.len(), HEADER_BYTES);
    let expected: Vec<u8> = vec![
        0, 0, 0, 5,             // version 5
        0, 0, 0, 1,             // address type IPv4
        10, 42, 0, 9,           // agent address
        0, 0, 0, 0,             // sub-agent id
        0, 0, 0, 7,             // datagram sequence
        0, 0x12, 0xd6, 0x87,    // uptime 1234567 ms
        0, 0, 0, 0,             // sample count
    ];
    assert_eq!(bytes, expected);
}

/// One flow sample, encoded field by field against the v5 layout.
#[test]
fn flow_samples_are_byte_exact() {
    let header = frame();
    let record = Record::Flow {
        sequence: 1,
        if_index: 1,
        sampling_rate: 16384,
        sample_pool: 16384,
        drops: 0,
        frame_length: 1518,
        header: header.clone(),
    };
    let mut xdr = Xdr::default();
    record.encode(&mut xdr);
    let bytes = xdr.out;

    let word = |at: usize| u32::from_be_bytes(bytes[at..at + 4].try_into().unwrap());
    assert_eq!(word(0), 1, "sample type = flow sample");
    assert_eq!(word(4) as usize, bytes.len() - 8, "length covers the body");
    assert_eq!(word(8), 1, "flow sequence");
    assert_eq!(word(12), 1, "source id (ifIndex, type 0)");
    assert_eq!(word(16), 16384, "sampling rate");
    assert_eq!(word(20), 16384, "sample pool");
    assert_eq!(word(24), 0, "drops");
    assert_eq!(word(28), 1, "input ifIndex");
    assert_eq!(word(32), 0, "output ifIndex (unknown)");
    assert_eq!(word(36), 1, "one flow record");
    assert_eq!(word(40), 1, "data format = raw packet header");
    assert_eq!(word(48), 1, "header protocol = ethernet");
    assert_eq!(word(52), 1518, "frame length on the wire");
    assert_eq!(word(56), 4, "stripped bytes (FCS)");
    assert_eq!(word(60) as usize, header.len(), "header length");
    assert_eq!(&bytes[64..64 + header.len()], &header[..]);
    // Everything is four-byte aligned.
    assert_eq!(bytes.len() % 4, 0);
}

/// The generic counter record is exactly the 88 bytes the v5 spec
/// defines — a collector reads it positionally.
#[test]
fn counter_samples_are_byte_exact() {
    let counters = InterfaceCounters {
        if_index: 1,
        if_type: 6,
        if_speed_bps: 1_000_000_000,
        full_duplex: true,
        admin_up: true,
        oper_up: true,
        in_octets: 4_816_030_792_344,
        in_ucast_pkts: 4_294_811_034,
        in_mcast_pkts: 12_004,
        in_bcast_pkts: 881,
        in_discards: 3,
        in_errors: 1,
        out_octets: 2_118_030_792_344,
        out_ucast_pkts: 2_294_811_034,
        out_mcast_pkts: 9_004,
        out_bcast_pkts: 441,
        out_discards: 2,
        out_errors: 0,
    };
    let mut xdr = Xdr::default();
    Record::Counters {
        sequence: 3,
        counters,
    }
    .encode(&mut xdr);
    let bytes = xdr.out;
    let word = |at: usize| u32::from_be_bytes(bytes[at..at + 4].try_into().unwrap());
    let long = |at: usize| u64::from_be_bytes(bytes[at..at + 8].try_into().unwrap());

    assert_eq!(word(0), 2, "sample type = counters sample");
    assert_eq!(word(8), 3, "counter sequence");
    assert_eq!(word(12), 1, "source id");
    assert_eq!(word(16), 1, "one counter record");
    assert_eq!(word(20), 1, "data format = generic interface");
    assert_eq!(word(24), 88, "generic counters are 88 bytes");
    assert_eq!(word(28), 1, "ifIndex");
    assert_eq!(word(32), 6, "ifType ethernetCsmacd");
    assert_eq!(long(36), 1_000_000_000, "ifSpeed");
    assert_eq!(word(44), 1, "ifDirection full-duplex");
    assert_eq!(word(48), 3, "ifStatus admin+oper up");
    assert_eq!(long(52), 4_816_030_792_344, "ifInOctets");
    assert_eq!(word(60), 4_294_811_034, "ifInUcastPkts");
    assert_eq!(long(84), 2_118_030_792_344, "ifOutOctets");
    // 8 (sample header) + 12 (sample body) + 8 (record header) + 88.
    assert_eq!(bytes.len(), 8 + 12 + 8 + 88);
}

/// Long frames are truncated to the header cap, and the wire length
/// is still reported in full — that is how a collector scales bytes.
#[test]
fn oversized_headers_truncate_but_keep_the_wire_length() {
    let mut engine = engine();
    let sample = Sample {
        if_index: 1,
        original_length: 9000,
        bytes: vec![0xab; 9000],
    };
    engine.take_sample(&sample, 1_000);
    let datagram = engine.flush_due(1_000 + FLUSH_AFTER).unwrap();
    let Record::Flow {
        frame_length,
        header,
        ..
    } = &datagram.records[0]
    else {
        panic!("expected a flow sample");
    };
    assert_eq!(*frame_length, 9000);
    assert_eq!(header.len(), MAX_HEADER_BYTES);
}

/// Sequence numbers advance per source, and the sample pool grows
/// by the rate for every sample taken.
#[test]
fn sequences_and_pools_advance_per_source() {
    let mut engine = engine();
    for _ in 0..3 {
        engine.take_sample(&Sample {
            if_index: 1,
            original_length: 64,
            bytes: frame(),
        }, 1_000);
    }
    engine.take_sample(&Sample {
        if_index: 2,
        original_length: 64,
        bytes: frame(),
    }, 1_000);
    let datagram = engine.flush_due(1_000 + FLUSH_AFTER).unwrap();
    let sequences: Vec<(u32, u32, u32)> = datagram
        .records
        .iter()
        .map(|record| match record {
            Record::Flow {
                sequence,
                if_index,
                sample_pool,
                ..
            } => (*if_index, *sequence, *sample_pool),
            _ => panic!("expected flow samples"),
        })
        .collect();
    assert_eq!(
        sequences,
        vec![(1, 1, 16384), (1, 2, 32768), (1, 3, 49152), (2, 1, 16384),]
    );
    // The datagram sequence is per agent, and starts at 1.
    assert_eq!(datagram.sequence, 1);
    assert_eq!(engine.snapshot().samples_taken, 4);
}

/// A datagram seals when the next record would overflow the MTU
/// budget, and every sealed datagram stays inside it.
#[test]
fn datagrams_pack_up_to_the_mtu_budget() {
    let mut engine = engine();
    let mut sealed = Vec::new();
    for _ in 0..40 {
        if let Some(datagram) = engine.take_sample(&Sample {
            if_index: 1,
            original_length: 1518,
            bytes: vec![0x5a; MAX_HEADER_BYTES],
        }, 1_000) {
            sealed.push(datagram);
        }
    }
    assert!(!sealed.is_empty(), "nothing sealed at 40 full-size samples");
    for datagram in &sealed {
        assert!(
            datagram.encode().len() <= MAX_DATAGRAM_BYTES,
            "datagram over budget: {} bytes",
            datagram.encode().len()
        );
        assert_eq!(datagram.records.len() as u32, {
            let bytes = datagram.encode();
            u32::from_be_bytes(bytes[24..28].try_into().unwrap())
        });
    }
    // Sequence numbers are consecutive across sealed datagrams.
    let numbers: Vec<u32> = sealed.iter().map(|d| d.sequence).collect();
    assert_eq!(numbers, (1..=numbers.len() as u32).collect::<Vec<_>>());
}

/// A partly-filled datagram waits, then goes out on its own.
#[test]
fn pacing_flushes_a_partial_datagram() {
    let mut engine = engine();
    assert!(
        engine.flush_due(0).is_none(),
        "nothing queued yet"
    );
    engine.take_sample(&Sample {
        if_index: 1,
        original_length: 64,
        bytes: frame(),
    }, 1_000);
    // The clock starts when the first record is queued, so `now`
    // has to be read after it.
    let now: u64 = 1_000;
    assert!(engine.flush_due(now).is_none(), "flushed too early");
    let datagram = engine.flush_due(now + FLUSH_AFTER).unwrap();
    assert_eq!(datagram.records.len(), 1);
    // ...and the queue is empty again.
    assert!(engine.flush_due(now + FLUSH_AFTER * 4).is_none());
}

/// Counter polling produces one sample per port, counted
/// separately from flow samples.
#[test]
fn counter_polls_are_counted_separately() {
    let mut engine = engine();
    let counters: Vec<InterfaceCounters> = (1..=3)
        .map(|if_index| InterfaceCounters {
            if_index,
            if_type: 6,
            if_speed_bps: 1_000_000_000,
            full_duplex: true,
            admin_up: true,
            oper_up: true,
            ..InterfaceCounters::default()
        })
        .collect();
    engine.take_counters(&counters, 1_000);
    engine.take_counters(&counters, 1_000);
    let snapshot = engine.snapshot();
    assert_eq!(snapshot.counter_samples, 6);
    assert_eq!(snapshot.samples_taken, 0);
    let datagram = engine.flush_due(1_000 + FLUSH_AFTER).unwrap();
    assert_eq!(datagram.records.len(), 6);
    // Per-source counter sequences advance independently.
    let sequences: Vec<(u32, u32)> = datagram
        .records
        .iter()
        .map(|record| match record {
            Record::Counters { sequence, counters } => (counters.if_index, *sequence),
            _ => panic!("expected counter samples"),
        })
        .collect();
    assert_eq!(
        sequences,
        vec![(1, 1), (2, 1), (3, 1), (1, 2), (2, 2), (3, 2)]
    );
}

/// Disabled sFlow exports nothing and drops whatever was queued —
/// a collector coming back wants live samples, not a backlog.
#[test]
fn disabling_stops_export_and_clears_the_queue() {
    let mut engine = engine();
    engine.take_sample(&Sample {
        if_index: 1,
        original_length: 64,
        bytes: frame(),
    }, 1_000);
    engine.set_config(Config::default());
    assert!(engine.flush_due(1_000 + FLUSH_AFTER).is_none());
    assert!(engine
        .take_sample(&Sample {
            if_index: 1,
            original_length: 64,
            bytes: frame(),
        }, 1_000)
        .is_none());
    assert!(engine
        .take_counters(&[InterfaceCounters::default()], 1_000)
        .is_empty());
    // The sample that was already taken still counted.
    assert_eq!(engine.snapshot().samples_taken, 1);
}

/// What went out and what failed are counted apart; the configuration reads
/// back as it was set.
#[test]
fn sends_are_counted() {
    let mut engine = engine();
    assert_eq!(engine.config(), config());
    engine.count_send(true);
    engine.count_send(true);
    engine.count_send(false);
    let snapshot = engine.snapshot();
    assert_eq!(snapshot.datagrams_sent, 2);
    assert_eq!(snapshot.datagrams_failed, 1);
    assert_eq!(snapshot.config, config());
}

/// A header that is no multiple of four bytes is padded, and its length says
/// how much of it counts.
#[test]
fn opaque_bytes_are_padded() {
    let mut xdr = Xdr::default();
    xdr.opaque(&[1, 2, 3, 4, 5]);
    assert_eq!(xdr.out, vec![0, 0, 0, 5, 1, 2, 3, 4, 5, 0, 0, 0]);
    let mut outer = Xdr::default();
    outer.sized(&xdr);
    assert_eq!(outer.out.len(), 16);
    assert_eq!(outer.out[..4], [0, 0, 0, 12]);
    let mut xdr = Xdr::default();
    xdr.long(0x0102_0304_0506_0708);
    assert_eq!(xdr.out, vec![1, 2, 3, 4, 5, 6, 7, 8]);
}

/// A record knows its size before it is encoded, and the uptime counts from
/// the engine's start.
#[test]
fn sizes_and_uptimes() {
    let mut engine = engine();
    engine.take_sample(
        &Sample {
            if_index: 1,
            original_length: 64,
            bytes: frame(),
        },
        1_000,
    );
    let datagram = engine.flush_due(1_500).unwrap();
    assert_eq!(datagram.uptime_ms, 1_500);
    let record = &datagram.records[0];
    let mut xdr = Xdr::default();
    record.encode(&mut xdr);
    assert_eq!(record.encoded_len(), xdr.out.len());
    assert_eq!(datagram.encode().len(), HEADER_BYTES + xdr.out.len());
}

/// A run of samples and the flush behind it export every sample once and in
/// order, in datagrams that are numbered on and fit.
#[test]
fn every_sample_is_exported_once() {
    let mut engine = engine();
    let mut stream = Vec::new();
    for n in 0..40u32 {
        let sample = Sample {
            if_index: 1 + n % 3,
            original_length: 100 + n,
            bytes: vec![n as u8; 100 + n as usize],
        };
        stream.extend(engine.take_sample(&sample, 1_000));
    }
    stream.extend(engine.flush_due(1_000 + FLUSH_AFTER));
    for (i, datagram) in stream.iter().enumerate() {
        assert_eq!(datagram.sequence as usize, i + 1);
        assert!(datagram.encode().len() <= MAX_DATAGRAM_BYTES);
    }
    let records: Vec<&Record> = stream.iter().flat_map(|d| d.records.iter()).collect();
    assert_eq!(records.len(), 40);
    for (n, record) in records.into_iter().enumerate() {
        let Record::Flow {
            frame_length,
            header,
            ..
        } = record
        else {
            panic!("expected a flow sample");
        };
        assert_eq!(*frame_length as usize, 100 + n);
        assert_eq!(*header, vec![n as u8; (100 + n).min(MAX_HEADER_BYTES)]);
    }
}
