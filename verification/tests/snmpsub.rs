//! The SNMP subagent: ifTable and ifXTable over AgentX.

use hemlock::agentx::{
    frame, parse_request, Header, Oid, PduType, Request, SearchRange, Value, ERROR_NONE, HEADER_LEN,
};
use hemlock::interfaces::{AdminState, InterfaceState, OperStatus, PortCounters};
use hemlock::snmpsub::{answer, build_mib, if_index, phys_address, Config, Engine, INTERFACES};

fn interface(name: &str, kind: &str, index: u32) -> InterfaceState {
    InterfaceState {
        name: name.into(),
        kind: kind.into(),
        index,
        admin_state: AdminState::Up,
        oper_status: OperStatus::Up,
        mac: "2c:dd:e9:4a:1b:01".into(),
        mtu: 9100,
        speed_mbps: 1000,
        description: "uplink to core-1".into(),
        seconds_since_change: Some(3600),
        seconds_since_clear: None,
        counters: Some(PortCounters {
            in_octets: 4_816_030_792_344,
            in_ucast_pkts: 4_294_811_034,
            in_mcast_pkts: 12_004,
            in_bcast_pkts: 881,
            in_discards: 3,
            in_errors: 1,
            out_octets: 2_118_030_792_344,
            out_ucast_pkts: 2_294_811_034,
            out_mcast_pkts: 9_004,
            out_bcast_pkts: 441,
            out_discards: 2,
            out_errors: 0,
        }),
        ip_addresses: Vec::new(),
        switchport_mode: String::new(),
        native_vlan: 0,
        access_vlan: 0,
        trunk_vlans: Vec::new(),
        members: Vec::new(),
    }
}

fn seed_mib() -> Vec<(Oid, Value)> {
    build_mib(&vec![
        interface("Ethernet1", "ethernet", 1),
        interface("Ethernet2", "ethernet", 2),
        interface("Management1", "management", 0),
        interface("Port-Channel1", "port-channel", 0),
        interface("Vlan99", "vlan", 0),
    ])
}

fn get(oid: &[u32]) -> Request {
    Request {
        header: Header::parse(&frame(PduType::Get, 1, 1, 1, Vec::new())).unwrap(),
        ranges: vec![SearchRange {
            start: oid.to_vec(),
            inclusive: false,
            end: Vec::new(),
        }],
        non_repeaters: 0,
        max_repetitions: 0,
    }
}

fn get_next(oid: &[u32], inclusive: bool) -> Request {
    Request {
        header: Header::parse(&frame(PduType::GetNext, 1, 1, 1, Vec::new())).unwrap(),
        ranges: vec![SearchRange {
            start: oid.to_vec(),
            inclusive,
            end: Vec::new(),
        }],
        non_repeaters: 0,
        max_repetitions: 0,
    }
}

/// ifIndex bands never collide, and a front-panel port with no
/// manifest index is skipped rather than aliased onto another.
#[test]
fn if_indexes_are_stable_and_disjoint() {
    assert_eq!(if_index("ethernet", "Ethernet1", 1), Some(1));
    assert_eq!(if_index("ethernet", "Ethernet49", 49), Some(49));
    assert_eq!(if_index("ethernet", "Ethernet1", 0), None);
    assert_eq!(if_index("management", "Management1", 0), Some(1001));
    assert_eq!(if_index("port-channel", "Port-Channel1", 0), Some(2001));
    assert_eq!(if_index("vlan", "Vlan99", 0), Some(10_099));
    assert_eq!(if_index("loopback", "Loopback0", 0), None);
    // The physical band tops out well below the next one.
    assert!(if_index("ethernet", "Ethernet52", 52).unwrap() < 1_000);
}

/// ifTable values come straight from the mock syncd counters.
#[test]
fn if_table_serves_syncd_counters() {
    let mib = seed_mib();
    let value = |oid: &[u32]| {
        let binds = answer(&mib, &get(oid));
        binds[0].value.clone()
    };
    // ifNumber counts every indexed interface.
    assert_eq!(value(&[1, 3, 6, 1, 2, 1, 2, 1, 0]), Value::Integer(5));
    // ifDescr/ifName, ifType, ifMtu, ifSpeed, ifOperStatus.
    assert_eq!(
        value(&[1, 3, 6, 1, 2, 1, 2, 2, 1, 2, 1]),
        Value::OctetString(b"Ethernet1".to_vec())
    );
    assert_eq!(value(&[1, 3, 6, 1, 2, 1, 2, 2, 1, 3, 1]), Value::Integer(6));
    assert_eq!(
        value(&[1, 3, 6, 1, 2, 1, 2, 2, 1, 4, 1]),
        Value::Integer(9100)
    );
    assert_eq!(
        value(&[1, 3, 6, 1, 2, 1, 2, 2, 1, 5, 1]),
        Value::Gauge32(1_000_000_000)
    );
    assert_eq!(
        value(&[1, 3, 6, 1, 2, 1, 2, 2, 1, 6, 1]),
        Value::OctetString(vec![0x2c, 0xdd, 0xe9, 0x4a, 0x1b, 0x01])
    );
    assert_eq!(value(&[1, 3, 6, 1, 2, 1, 2, 2, 1, 8, 1]), Value::Integer(1));
    // The 32-bit counters are the low half of the real ones...
    assert_eq!(
        value(&[1, 3, 6, 1, 2, 1, 2, 2, 1, 10, 1]),
        Value::Counter32((4_816_030_792_344u64 & 0xffff_ffff) as u32)
    );
    // ...and ifXTable carries the whole number.
    assert_eq!(
        value(&[1, 3, 6, 1, 2, 1, 31, 1, 1, 1, 6, 1]),
        Value::Counter64(4_816_030_792_344)
    );
    assert_eq!(
        value(&[1, 3, 6, 1, 2, 1, 31, 1, 1, 1, 15, 1]),
        Value::Gauge32(1000)
    );
    assert_eq!(
        value(&[1, 3, 6, 1, 2, 1, 31, 1, 1, 1, 18, 1]),
        Value::OctetString(b"uplink to core-1".to_vec())
    );
}

/// A down port reports operStatus down and an unparsable MAC an
/// empty physical address, rather than lying either way.
#[test]
fn degraded_interfaces_render_honestly() {
    let mut iface = interface("Ethernet3", "ethernet", 3);
    iface.oper_status = OperStatus::Down;
    iface.admin_state = AdminState::Down;
    iface.mac = "not-a-mac".into();
    iface.speed_mbps = 0;
    let mib = build_mib(&vec![iface]);
    let value = |oid: &[u32]| answer(&mib, &get(oid))[0].value.clone();
    assert_eq!(value(&[1, 3, 6, 1, 2, 1, 2, 2, 1, 7, 3]), Value::Integer(2));
    assert_eq!(value(&[1, 3, 6, 1, 2, 1, 2, 2, 1, 8, 3]), Value::Integer(2));
    assert_eq!(
        value(&[1, 3, 6, 1, 2, 1, 2, 2, 1, 6, 3]),
        Value::OctetString(Vec::new())
    );
    assert_eq!(value(&[1, 3, 6, 1, 2, 1, 2, 2, 1, 5, 3]), Value::Gauge32(0));
}

/// Get distinguishes "no such instance" from "no such object".
#[test]
fn get_reports_the_right_exception() {
    let mib = seed_mib();
    // A real column, an index that does not exist.
    assert_eq!(
        answer(&mib, &get(&[1, 3, 6, 1, 2, 1, 2, 2, 1, 8, 77]))[0].value,
        Value::NoSuchInstance
    );
    // Nothing under this OID at all.
    assert_eq!(
        answer(&mib, &get(&[1, 3, 6, 1, 2, 1, 99, 1]))[0].value,
        Value::NoSuchObject
    );
}

/// A walk visits every OID once, in order, and ends cleanly.
#[test]
fn getnext_walks_the_whole_mib() {
    let mib = seed_mib();
    let mut oid: Oid = INTERFACES.to_vec();
    let mut visited: Vec<Oid> = Vec::new();
    loop {
        let binds = answer(&mib, &get_next(&oid, false));
        let bind = &binds[0];
        if bind.value == Value::EndOfMibView {
            break;
        }
        assert!(bind.name > oid, "walk went backwards at {oid:?}");
        visited.push(bind.name.clone());
        oid = bind.name.clone();
        assert!(visited.len() <= mib.len(), "walk did not terminate");
    }
    // Both tables are inside one contiguous walk from 1.3.6.1.2.1.2.
    assert_eq!(visited.len(), mib.len());
    assert_eq!(
        visited,
        mib.iter().map(|(oid, _)| oid.clone()).collect::<Vec<_>>()
    );

    // An inclusive range returns the entry at the start OID itself.
    let first = &mib[0].0;
    let binds = answer(&mib, &get_next(first, true));
    assert_eq!(&binds[0].name, first);
}

/// A bounded range stops at its end rather than spilling past it.
#[test]
fn getnext_respects_the_range_end() {
    let mib = seed_mib();
    let request = Request {
        header: Header::parse(&frame(PduType::GetNext, 1, 1, 1, Vec::new())).unwrap(),
        ranges: vec![SearchRange {
            start: vec![1, 3, 6, 1, 2, 1, 2, 2, 1, 8, 2],
            inclusive: false,
            end: vec![1, 3, 6, 1, 2, 1, 2, 2, 1, 9],
        }],
        non_repeaters: 0,
        max_repetitions: 0,
    };
    let binds = answer(&mib, &request);
    // The next ifOperStatus instance is inside the range...
    assert_eq!(binds[0].name, vec![1, 3, 6, 1, 2, 1, 2, 2, 1, 8, 1001]);
    // ...but walking past the last one ends the view.
    let request = Request {
        ranges: vec![SearchRange {
            start: vec![1, 3, 6, 1, 2, 1, 2, 2, 1, 8, 10_099],
            inclusive: false,
            end: vec![1, 3, 6, 1, 2, 1, 2, 2, 1, 9],
        }],
        ..request
    };
    assert_eq!(answer(&mib, &request)[0].value, Value::EndOfMibView);
}

/// GetBulk repeats each range and honours non-repeaters.
#[test]
fn getbulk_repeats_and_terminates() {
    let mib = seed_mib();
    let request = Request {
        header: Header::parse(&frame(PduType::GetBulk, 1, 1, 1, Vec::new())).unwrap(),
        ranges: vec![SearchRange {
            start: vec![1, 3, 6, 1, 2, 1, 2, 2, 1, 1],
            inclusive: false,
            end: Vec::new(),
        }],
        non_repeaters: 0,
        max_repetitions: 5,
    };
    let binds = answer(&mib, &request);
    assert_eq!(binds.len(), 5);
    // The five ifIndex instances, in index order.
    assert_eq!(
        binds.iter().map(|b| b.value.clone()).collect::<Vec<_>>(),
        vec![
            Value::Integer(1),
            Value::Integer(2),
            Value::Integer(1001),
            Value::Integer(2001),
            Value::Integer(10_099),
        ]
    );
    // A bulk that runs off the end stops instead of spinning.
    let request = Request {
        ranges: vec![SearchRange {
            start: mib.last().unwrap().0.clone(),
            inclusive: false,
            end: Vec::new(),
        }],
        max_repetitions: 50,
        ..request
    };
    let binds = answer(&mib, &request);
    assert_eq!(binds.len(), 1);
    assert_eq!(binds[0].value, Value::EndOfMibView);
}

/// The counters `show snmp` prints track what the master
/// dispatched, and a response is emitted for every request.
#[test]
fn requests_are_counted() {
    let mut engine = Engine::new();
    engine.store_mib(seed_mib(), 0);
    for _ in 0..3 {
        let reply = engine.serve(&get(&[1, 3, 6, 1, 2, 1, 2, 1, 0]));
        assert_eq!(Header::parse(&reply).unwrap().pdu_type, PduType::Response);
    }
    engine.serve(&get_next(&INTERFACES, false));
    engine.count_error();
    let snapshot = engine.snapshot();
    assert_eq!(snapshot.packets_in, 4);
    assert_eq!(snapshot.packets_out, 4);
    assert_eq!(snapshot.get_requests, 3);
    assert_eq!(snapshot.getnext_requests, 1);
    assert_eq!(snapshot.errors, 1);
}

/// A scripted master: frame a Get the way net-snmp would, hand the
/// bytes to the decoder, and read the response back off the wire.
#[test]
fn framing_round_trips_against_a_scripted_master() {
    let mut engine = Engine::new();
    engine.store_mib(seed_mib(), 0);

    // The master frames a Get for ifHCInOctets.1 (with the OID
    // prefix shorthand it really uses).
    let mut payload = vec![7, 2, 0, 0];
    for sub in [1u32, 31, 1, 1, 1, 6, 1] {
        payload.extend_from_slice(&sub.to_be_bytes());
    }
    payload.extend_from_slice(&[0, 0, 0, 0]);
    let wire = frame(PduType::Get, 42, 7, 99, payload);

    let header = Header::parse(&wire).unwrap();
    assert_eq!(header.payload_len as usize, wire.len() - HEADER_LEN);
    let request = parse_request(header, &wire[HEADER_LEN..]).unwrap();
    let reply = engine.serve(&request);

    // The master reads a Response echoing its ids...
    let header = Header::parse(&reply).unwrap();
    assert_eq!(header.pdu_type, PduType::Response);
    assert_eq!(
        (header.session_id, header.transaction_id, header.packet_id),
        (42, 7, 99)
    );
    assert_eq!(header.payload_len as usize, reply.len() - HEADER_LEN);
    // ...carrying sysUpTime, error 0, index 0, then the varbind.
    let body = &reply[HEADER_LEN..];
    assert_eq!(u16::from_be_bytes([body[4], body[5]]), ERROR_NONE);
    assert_eq!(u16::from_be_bytes([body[6], body[7]]), 0);
    // Counter64 (70), reserved, then the OID and the 8-byte value.
    assert_eq!(u16::from_be_bytes([body[8], body[9]]), 70);
    let value = &body[body.len() - 8..];
    assert_eq!(
        u64::from_be_bytes(value.try_into().unwrap()),
        4_816_030_792_344
    );
}

/// Disabling SNMP drops the claimed session immediately, so
/// `show snmp` cannot report a live agent that is being torn down.
#[test]
fn disabling_drops_the_session() {
    let mut engine = Engine::new();
    engine.set_config(Config {
        enabled: true,
        socket: "/var/agentx/master".into(),
        ..Config::default()
    });
    engine.set_connected(true);
    assert!(engine.snapshot().connected);
    engine.set_config(Config::default());
    let snapshot = engine.snapshot();
    assert!(!snapshot.connected);
    assert!(!snapshot.config.enabled);
}

/// The MIB answers from its snapshot for five seconds, then is built anew.
#[test]
fn the_mib_goes_stale() {
    let mut engine = Engine::new();
    assert!(!engine.mib_fresh(0));
    engine.store_mib(seed_mib(), 1_000);
    assert!(engine.mib_fresh(1_000));
    assert!(engine.mib_fresh(5_999));
    assert!(!engine.mib_fresh(6_000));
}

/// A number beyond its band has no ifIndex: it would be another interface's.
#[test]
fn numbers_beyond_their_band_have_no_index() {
    assert_eq!(if_index("ethernet", "Ethernet999", 999), Some(999));
    assert_eq!(if_index("ethernet", "Ethernet1000", 1000), None);
    assert_eq!(if_index("ethernet", "Ethernet2001", 2001), None);
    assert_eq!(if_index("management", "Management999", 0), Some(1999));
    assert_eq!(if_index("management", "Management1001", 0), None);
    assert_eq!(if_index("port-channel", "Port-Channel7999", 0), Some(9999));
    assert_eq!(if_index("port-channel", "Port-Channel8099", 0), None);
    assert_eq!(if_index("vlan", "Vlan4294957295", 0), Some(u32::MAX));
    assert_eq!(if_index("vlan", "Vlan4294957296", 0), None);
}

/// One group that is no byte is enough for an empty address.
#[test]
fn unparsable_macs_render_empty() {
    assert_eq!(
        phys_address("2c:dd:e9:4a:1b:01"),
        Value::OctetString(vec![0x2c, 0xdd, 0xe9, 0x4a, 0x1b, 0x01])
    );
    for mac in [
        "",
        "zz:2c:dd:e9:4a:1b:01",
        "2c:dd:e9:4a:1b",
        "2c:dd:e9:4a:1b:01:02",
        "2c:dd:e9:4a:1b:100",
        "2c:dd::e9:4a:1b:01",
    ] {
        assert_eq!(phys_address(mac), Value::OctetString(Vec::new()), "{mac}");
    }
}

/// A GetBulk of one range gives back what a GetNext walk does, the end of the
/// view included.
#[test]
fn getbulk_is_the_getnext_walk() {
    let mib = seed_mib();
    let start: Oid = vec![1, 3, 6, 1, 2, 1, 2, 2, 1, 1];
    let end: Oid = vec![1, 3, 6, 1, 2, 1, 2, 2, 1, 2];
    for max_repetitions in [0, 1, 4, 5, 6, 7] {
        let request = Request {
            header: Header::parse(&frame(PduType::GetBulk, 1, 1, 1, Vec::new())).unwrap(),
            ranges: vec![SearchRange {
                start: start.clone(),
                inclusive: false,
                end: end.clone(),
            }],
            non_repeaters: 0,
            max_repetitions,
        };
        let bulk = answer(&mib, &request);
        let mut walked = Vec::new();
        let mut at = start.clone();
        while walked.len() < usize::from(max_repetitions) {
            let mut step = get_next(&at, false);
            step.ranges[0].end = end.clone();
            let bind = answer(&mib, &step).remove(0);
            at = bind.name.clone();
            let last = bind.value == Value::EndOfMibView;
            walked.push(bind);
            if last {
                break;
            }
        }
        // Five interfaces lie inside the range.
        assert_eq!(bulk.len(), usize::from(max_repetitions).min(6));
        let pairs = |binds: Vec<hemlock::agentx::VarBind>| -> Vec<(Oid, Value)> {
            binds.into_iter().map(|b| (b.name, b.value)).collect()
        };
        assert_eq!(pairs(bulk), pairs(walked));
    }
}

/// The MIB rises strictly, has 38 entries for each interface, and depends
/// neither on their order nor on those without an ifIndex.
#[test]
fn the_mib_is_fixed_by_its_interfaces() {
    let mib = seed_mib();
    assert_eq!(mib.len(), 1 + 38 * 5);
    assert_eq!(mib[0], (vec![1, 3, 6, 1, 2, 1, 2, 1, 0], Value::Integer(5)));
    assert!(mib.windows(2).all(|pair| pair[0].0 < pair[1].0));
    let shuffled = build_mib(&vec![
        interface("Vlan99", "vlan", 0),
        interface("Ethernet2", "ethernet", 2),
        interface("Loopback0", "loopback", 0),
        interface("Port-Channel1", "port-channel", 0),
        interface("Ethernet1", "ethernet", 1),
        interface("Management1", "management", 0),
    ]);
    assert_eq!(shuffled, mib);
}
