//! Spanning tree.

use hemlock::ordmap::OrdMap;
use hemlock::stp::{
    decode_bpdu, encode_bpdu, BridgeId, Config, Engine, LinkEvent, Mode, PortConfig, PortState,
    Role,
};

fn config(priority: u16) -> Config {
    Config {
        mode: Mode::Mstp,
        priority,
        hello_time: 1,
        max_age: 6,
        forward_time: 1,
        ..Config::default()
    }
}

fn link(port: &str, up: bool) -> LinkEvent {
    LinkEvent {
        port: port.into(),
        up,
        speed_mbps: 1000,
    }
}

/// Where a frame that leaves a bridge's port arrives.
fn wire(bridge: usize, port: &str) -> (usize, &'static str) {
    match (bridge, port) {
        (0, "Ethernet2") => (1, "Ethernet1"),
        (0, "Ethernet3") => (2, "Ethernet1"),
        (1, "Ethernet1") => (0, "Ethernet2"),
        (1, "Ethernet3") => (2, "Ethernet2"),
        (2, "Ethernet1") => (0, "Ethernet3"),
        (2, "Ethernet2") => (1, "Ethernet3"),
        _ => panic!("no wire at {bridge} {port}"),
    }
}

/// One pass of every bridge at `now`, and of what their frames set off.
fn pass(bridges: &mut Vec<Engine>, now: u64) {
    for _ in 0..6 {
        let mut frames: Vec<(usize, &'static str, Vec<u8>)> = Vec::new();
        for (i, bridge) in bridges.iter_mut().enumerate() {
            for (port, frame) in bridge.step(now).bpdu_out {
                let (peer, peer_port) = wire(i, &port);
                frames.push((peer, peer_port, frame));
            }
        }
        for (peer, port, frame) in frames {
            bridges[peer].on_bpdu(port, &frame, now);
        }
    }
}

/// Three bridges in a triangle converge: one root, one blocked port
/// breaking the loop.
#[test]
fn three_bridge_triangle_converges() {
    // Bridge A (lowest MAC) <-> B, A <-> C, B <-> C.
    let mut bridges = vec![
        Engine::spawn([0x02, 0, 0, 0, 0, 0x01]),
        Engine::spawn([0x02, 0, 0, 0, 0, 0x02]),
        Engine::spawn([0x02, 0, 0, 0, 0, 0x03]),
    ];
    for engine in bridges.iter_mut() {
        engine.set_config(config(32768));
    }
    for port in ["Ethernet2", "Ethernet3"] {
        bridges[0].on_link(link(port, true), 0);
    }
    for port in ["Ethernet1", "Ethernet3"] {
        bridges[1].on_link(link(port, true), 0);
    }
    for port in ["Ethernet1", "Ethernet2"] {
        bridges[2].on_link(link(port, true), 0);
    }
    // Convergence: 2x forward-delay (1s each) plus propagation.
    for tick in 0..=20u64 {
        pass(&mut bridges, tick * 250);
    }

    let snap_a = bridges[0].snapshot(5_000);
    let snap_b = bridges[1].snapshot(5_000);
    let snap_c = bridges[2].snapshot(5_000);

    // A (lowest bridge id) is the root; all its ports designated
    // and forwarding.
    assert_eq!(snap_a.root, snap_a.bridge, "A is the root");
    assert!(snap_a
        .ports
        .iter()
        .all(|p| p.role == Role::Designated && p.state == PortState::Forwarding));
    assert!(snap_a.topology_changes > 0);

    // B and C both see A as root through their direct link.
    for snap in [&snap_b, &snap_c] {
        assert_eq!(snap.root, snap_a.bridge);
        assert_eq!(snap.root_port.as_deref(), Some("Ethernet1"));
        assert_eq!(snap.root_cost, 20_000, "one 1G hop");
    }
    // The B<->C link carries exactly one blocked (alternate) end.
    let b3 = snap_b.ports.iter().find(|p| p.port == "Ethernet3").unwrap();
    let c2 = snap_c.ports.iter().find(|p| p.port == "Ethernet2").unwrap();
    let blocked = [b3, c2]
        .iter()
        .filter(|p| p.role == Role::Alternate && p.state == PortState::Discarding)
        .count();
    assert_eq!(blocked, 1, "the loop is broken exactly once");
}

/// BPDU guard errdisables a portfast edge that hears a bridge.
#[test]
fn bpdu_guard_errdisables() {
    let mut a = Engine::spawn([0x02, 0, 0, 0, 0, 0x10]);
    let mut cfg = config(32768);
    let mut ports: OrdMap<String, PortConfig> = OrdMap::new();
    ports.insert(
        "Ethernet1".into(),
        PortConfig {
            portfast: true,
            bpduguard: true,
            cost: None,
            priority: 128,
        },
    );
    cfg.ports = ports;
    a.set_config(cfg);
    a.on_link(link("Ethernet1", true), 0);
    for tick in 0..=4u64 {
        a.step(tick * 250);
    }
    // The edge port forwards immediately.
    let snap = a.snapshot(1_000);
    assert_eq!(snap.ports[0].state, PortState::Forwarding);

    // A BPDU arrives: guard trips, port errdisables.
    let rogue = encode_bpdu(
        [0x02, 0, 0, 0, 0, 0x99],
        true,
        BridgeId {
            priority: 0,
            mac: [0x02, 0, 0, 0, 0, 0x99],
        },
        0,
        BridgeId {
            priority: 0,
            mac: [0x02, 0, 0, 0, 0, 0x99],
        },
        0x8001,
        2,
        20,
        15,
    );
    let event = a.on_bpdu("Ethernet1", &rogue, 1_000).unwrap();
    for tick in 4..=8u64 {
        a.step(tick * 250);
    }
    assert_eq!(event.port, "Ethernet1");
    assert_eq!(event.reason, "bpduguard");
    let snap = a.snapshot(2_000);
    assert!(snap.ports[0].errdisabled);
    assert_eq!(snap.ports[0].state, PortState::Discarding);
}

#[test]
fn bpdu_round_trips() {
    let root = BridgeId {
        priority: 4096,
        mac: [1, 2, 3, 4, 5, 6],
    };
    let bridge = BridgeId {
        priority: 32768,
        mac: [6, 5, 4, 3, 2, 1],
    };
    let frame = encode_bpdu([9; 6], true, root, 20000, bridge, 0x8001, 2, 20, 15);
    let decoded = decode_bpdu(&frame).unwrap();
    assert_eq!(decoded.root, root);
    assert_eq!(decoded.cost, 20000);
    assert_eq!(decoded.bridge, bridge);
    assert_eq!(decoded.port_id, 0x8001);
    assert!(decode_bpdu(&frame[..20]).is_none());
    assert!(decode_bpdu(&[0u8; 60]).is_none());
}

#[test]
fn bridge_ids_order_like_the_wire() {
    let low = BridgeId {
        priority: 4096,
        mac: [0xff; 6],
    };
    let high = BridgeId {
        priority: 32768,
        mac: [0x00; 6],
    };
    assert!(low < high, "priority dominates the MAC");
    assert!(low.value() < high.value());
}

/// With spanning tree off every live port forwards at once, and no BPDU is
/// sent.
#[test]
fn mode_off_forwards() {
    let mut a = Engine::spawn([0x02, 0, 0, 0, 0, 0x10]);
    let mut cfg = config(32768);
    cfg.mode = Mode::Off;
    a.set_config(cfg);
    a.on_link(link("Ethernet1", true), 0);
    let out = a.step(0);
    assert!(out.bpdu_out.is_empty());
    assert_eq!(a.snapshot(0).ports[0].state, PortState::Forwarding);
    assert_eq!(a.snapshot(0).mode.word(), "none");
    assert_eq!(a.snapshot(0).ports[0].role.word(), "designated");
    assert_eq!(a.snapshot(0).ports[0].state.word(), "forwarding");
}

/// Link speed sets the path cost, where no cost is configured.
#[test]
fn path_costs_follow_the_speed() {
    let mut a = Engine::spawn([0x02, 0, 0, 0, 0, 0x10]);
    a.set_config(config(32768));
    a.on_link(
        LinkEvent {
            port: "Ethernet1".into(),
            up: true,
            speed_mbps: 10_000,
        },
        0,
    );
    a.step(0);
    assert_eq!(a.snapshot(0).ports[0].cost, 2_000);
    assert!(a.has_room());
}

#[test]
fn hardware_states_have_their_words() {
    assert_eq!(PortState::Discarding.hardware_word(), "blocking");
    assert_eq!(PortState::Learning.hardware_word(), "learning");
    assert_eq!(PortState::Forwarding.hardware_word(), "forwarding");
}
