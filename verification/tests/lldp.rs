//! LLDP: advertisements, neighbors and their ageing.

use hemlock::lldp::{
    decode, encode, Config, Engine, LinkEvent, PortInfo, System, LLDP_DST, LLDP_ETHERTYPE,
};
use hemlock::ordmap::{OrdMap, TextSet};

fn system() -> System {
    System {
        chassis_mac: [0x2c, 0xdd, 0xe9, 0x4a, 0x1b, 0x00],
        name: "hemlock".into(),
        description: "Hemlock NOS version 0.1.0".into(),
        management_address: "10.42.0.9".into(),
    }
}

fn port_info() -> PortInfo {
    PortInfo {
        mac: [0x2c, 0xdd, 0xe9, 0x4a, 0x1b, 0x31],
        description: "uplink to core-1".into(),
    }
}

fn ports(names: &[&str]) -> OrdMap<String, PortInfo> {
    let mut out: OrdMap<String, PortInfo> = OrdMap::new();
    for name in names {
        out.insert(name.to_string(), port_info());
    }
    out
}

fn up(port: &str) -> LinkEvent {
    LinkEvent {
        port: port.into(),
        up: true,
    }
}

#[test]
fn encode_decode_round_trip() {
    let frame = encode(&system(), "Ethernet49", &port_info(), 120);
    assert_eq!(frame[..6], LLDP_DST);
    assert_eq!(frame[6..12], port_info().mac);
    assert_eq!(u16::from_be_bytes([frame[12], frame[13]]), LLDP_ETHERTYPE);
    let neighbor = decode(&frame).unwrap();
    assert_eq!(neighbor.chassis_id, "2c:dd:e9:4a:1b:00");
    assert_eq!(neighbor.chassis_id_subtype, "mac");
    assert_eq!(neighbor.port_id, "Ethernet49");
    assert_eq!(neighbor.port_id_subtype, "interface-name");
    assert_eq!(neighbor.port_description, "uplink to core-1");
    assert_eq!(neighbor.system_name, "hemlock");
    assert_eq!(neighbor.system_description, "Hemlock NOS version 0.1.0");
    assert_eq!(neighbor.management_address, "10.42.0.9");
    assert_eq!(neighbor.ttl, 120);
}

/// The optional TLVs really are optional: an advertisement with
/// only the mandatory three still decodes.
#[test]
fn minimal_advertisement_decodes() {
    let system = System {
        chassis_mac: [0x02, 0, 0, 0, 0, 1],
        ..System::default()
    };
    let frame = encode(&system, "Ethernet1", &PortInfo::default(), 120);
    let neighbor = decode(&frame).unwrap();
    assert_eq!(neighbor.chassis_id, "02:00:00:00:00:01");
    assert!(neighbor.system_name.is_empty());
    assert!(neighbor.management_address.is_empty());
}

#[test]
fn junk_and_foreign_frames_do_not_decode() {
    // Wrong ethertype.
    let mut frame = encode(&system(), "Ethernet1", &port_info(), 120);
    frame[12] = 0x08;
    frame[13] = 0x00;
    assert!(decode(&frame).is_none());
    // Truncated mid-TLV.
    let frame = encode(&system(), "Ethernet1", &port_info(), 120);
    assert!(decode(&frame[..17]).is_none());
    // A frame with no TLVs at all.
    assert!(decode(&[0u8; 60]).is_none());
}

fn engine_with_ports() -> Engine {
    let mut engine = Engine::spawn([0x2c, 0xdd, 0xe9, 0x4a, 0x1b, 0x00]);
    engine.set_system(system());
    engine.set_ports(ports(&["Ethernet1", "Ethernet2"]));
    engine
}

#[test]
fn transmits_on_up_ports_and_learns_neighbors() {
    let mut engine = Engine::spawn([0x2c, 0xdd, 0xe9, 0x4a, 0x1b, 0x00]);
    engine.set_system(system());
    engine.set_ports(ports(&["Ethernet1"]));
    engine.on_link(up("Ethernet1"));
    let sent = engine.step(0);
    assert_eq!(sent.len(), 1);
    let (port, frame) = &sent[0];
    assert_eq!(port, "Ethernet1");

    // Feed the switch its own advertisement back: a neighbor with
    // our own identity, which is exactly the loopback test case.
    engine.on_frame("Ethernet1", frame, 10);
    assert!(engine.step(10).is_empty());
    let snapshot = engine.snapshot(50);
    let port = &snapshot.ports[0];
    assert_eq!(port.frames_tx, 1);
    assert_eq!(port.frames_rx, 1);
    assert_eq!(port.frames_discarded, 0);
    assert_eq!(port.neighbors.len(), 1);
    assert_eq!(port.neighbors[0].neighbor.system_name, "hemlock");
}

#[test]
fn a_disabled_port_neither_transmits_nor_learns() {
    let mut engine = Engine::spawn([0x2c, 0xdd, 0xe9, 0x4a, 0x1b, 0x00]);
    engine.set_system(system());
    engine.set_ports(ports(&["Ethernet3"]));
    engine.set_config(Config {
        disabled_ports: TextSet::of_names(&vec!["Ethernet3".to_string()]),
        ..Config::default()
    });
    engine.on_link(up("Ethernet3"));
    let mut sent: usize = engine.step(0).len();
    let frame = encode(&system(), "Ethernet12", &port_info(), 120);
    engine.on_frame("Ethernet3", &frame, 0);
    sent += engine.step(50).len();
    assert_eq!(sent, 0);
    let snapshot = engine.snapshot(50);
    assert!(!snapshot.ports[0].enabled);
    assert_eq!(snapshot.ports[0].frames_tx, 0);
    assert!(snapshot.ports[0].neighbors.is_empty());
}

/// A neighbor whose TTL runs out disappears and bumps the ageout
/// counter; a shutdown PDU (TTL 0) withdraws it immediately.
#[test]
fn neighbors_age_out_and_withdraw() {
    let mut engine = Engine::spawn([0x2c, 0xdd, 0xe9, 0x4a, 0x1b, 0x00]);
    engine.set_ports(ports(&["Ethernet1"]));
    let neighbor = System {
        chassis_mac: [0x2c, 0xdd, 0xe9, 0x77, 0x00, 0x0c],
        name: "core-sw-01".into(),
        ..System::default()
    };
    engine.on_frame(
        "Ethernet1",
        &encode(&neighbor, "Ethernet12", &port_info(), 1),
        0,
    );
    engine.step(50);
    assert_eq!(engine.snapshot(50).ports[0].neighbors.len(), 1);

    engine.step(500);
    engine.step(1000);
    engine.step(1150);
    let snapshot = engine.snapshot(1150);
    assert!(snapshot.ports[0].neighbors.is_empty());
    assert_eq!(snapshot.ports[0].ageouts, 1);

    // Re-learn, then withdraw with a TTL-0 shutdown PDU.
    engine.on_frame(
        "Ethernet1",
        &encode(&neighbor, "Ethernet12", &port_info(), 120),
        1150,
    );
    engine.step(1200);
    assert_eq!(engine.snapshot(1200).ports[0].neighbors.len(), 1);
    engine.on_frame(
        "Ethernet1",
        &encode(&neighbor, "Ethernet12", &port_info(), 0),
        1200,
    );
    engine.step(1250);
    let snapshot = engine.snapshot(1250);
    assert!(snapshot.ports[0].neighbors.is_empty());
    // A withdrawal is not an ageout.
    assert_eq!(snapshot.ports[0].ageouts, 1);
}

#[test]
fn ttl_is_the_interval_times_the_multiplier() {
    let mut engine = engine_with_ports();
    engine.set_config(Config {
        tx_interval: 45_000,
        hold_multiplier: 3,
        ..Config::default()
    });
    assert_eq!(engine.ttl(), 135);
}

#[test]
fn clearing_counters_is_scoped() {
    let mut engine = engine_with_ports();
    for (_, state) in engine.ports.entries.iter_mut() {
        state.frames_tx = 10;
        state.ageouts = 2;
    }
    assert_eq!(engine.clear_counters("Ethernet1"), 1);
    let snapshot = engine.snapshot(0);
    assert_eq!(snapshot.ports[0].frames_tx, 0);
    assert_eq!(snapshot.ports[1].frames_tx, 10);
    assert_eq!(engine.clear_counters(""), 2);
    assert!(engine
        .snapshot(0)
        .ports
        .iter()
        .all(|p| p.frames_tx == 0 && p.ageouts == 0));
}

/// A foreign frame counts as discarded; a TTL past what its field holds
/// saturates.
#[test]
fn discards_and_long_ttls() {
    let mut engine = engine_with_ports();
    engine.on_frame("Ethernet1", &[0u8; 60], 0);
    let snapshot = engine.snapshot(0);
    assert_eq!(snapshot.ports[0].frames_discarded, 1);
    assert_eq!(snapshot.chassis_id, "2c:dd:e9:4a:1b:00");
    engine.set_config(Config {
        tx_interval: 65_000_000,
        hold_multiplier: 10,
        ..Config::default()
    });
    assert_eq!(engine.ttl(), 65_535);
    assert!(engine.has_room());
}
