//! LACP: bundling, expiry, min-links and fallback.

use hemlock::lacp::state;
use hemlock::lacp::{
    decode_pdu, encode_pdu, Engine, Fallback, GateUpdate, LagConfig, LinkEvent, MemberConfig, Mode,
    Partner,
};
use hemlock::ordmap::OrdMap;

fn member(mode: Mode, rate_fast: bool) -> MemberConfig {
    MemberConfig {
        mode,
        rate_fast,
        port_priority: 32768,
    }
}

fn lag(group: u16, mode: Mode, ports: &[&str]) -> LagConfig {
    let mut members: OrdMap<String, MemberConfig> = OrdMap::new();
    for port in ports {
        members.insert((*port).to_string(), member(mode, true));
    }
    LagConfig {
        group,
        min_links: 0,
        fallback: None,
        fallback_timeout: 90_000,
        members,
    }
}

/// Two engines wired back-to-back: every frame engine A emits on a
/// port arrives at engine B on the same port name, and vice versa.
struct Pair {
    a: Engine,
    b: Engine,
    a_gates: Vec<GateUpdate>,
    now: u64,
}

impl Pair {
    fn new() -> Pair {
        Pair {
            a: Engine::spawn([0x02, 0, 0, 0, 0, 0xaa]),
            b: Engine::spawn([0x02, 0, 0, 0, 0, 0xbb]),
            a_gates: Vec::new(),
            now: 0,
        }
    }

    /// One pass of both engines, and of what their frames set off.
    fn pass(&mut self) {
        for _ in 0..8 {
            let out = self.a.step(self.now);
            self.a_gates.extend(out.gates);
            for (port, frame) in out.pdu_out {
                self.b.on_pdu(&port, &frame, self.now);
            }
            let out = self.b.step(self.now);
            for (port, frame) in out.pdu_out {
                self.a.on_pdu(&port, &frame, self.now);
            }
        }
    }

    /// The engines tick every half second.
    fn settle(&mut self, millis: u64) {
        let end = self.now + millis;
        self.pass();
        while self.now < end {
            self.now += 500;
            self.pass();
        }
    }

    fn link(&mut self, port: &str, up: bool) {
        for engine in [&mut self.a, &mut self.b] {
            engine.on_link(LinkEvent {
                port: port.into(),
                up,
            });
        }
    }
}

#[test]
fn two_engines_bundle_and_expire() {
    let mut pair = Pair::new();
    pair.a.set_configs(
        32768,
        vec![lag(1, Mode::Active, &["Ethernet49", "Ethernet50"])],
        0,
    );
    pair.b.set_configs(
        32768,
        vec![lag(1, Mode::Active, &["Ethernet49", "Ethernet50"])],
        0,
    );
    for port in ["Ethernet49", "Ethernet50"] {
        pair.link(port, true);
    }
    pair.settle(2500);

    let snapshot = pair.a.snapshot(pair.now);
    let lag_state = &snapshot.lags[0];
    assert_eq!(lag_state.bundled, 2, "both members bundle");
    assert!(lag_state.up);
    let m = &lag_state.members[0];
    assert_eq!(m.status, "bundled");
    assert_eq!(m.partner_system, Some((32768, [0x02, 0, 0, 0, 0, 0xbb])));
    assert!(m.actor_state & state::COLLECTING != 0);
    assert!(m.pdus_rx > 0 && m.pdus_tx > 0);

    let last = pair.a_gates.iter().filter(|g| g.group == 1).last().unwrap();
    assert_eq!(
        last.members,
        vec![
            ("Ethernet49".to_string(), true),
            ("Ethernet50".to_string(), true)
        ]
    );

    // Partner loses a link: that member unbundles on both sides.
    pair.b.on_link(LinkEvent {
        port: "Ethernet50".into(),
        up: false,
    });
    // Expiry horizon for fast rate is 3s.
    pair.settle(4000);
    let snapshot = pair.a.snapshot(pair.now);
    let m50 = snapshot.lags[0]
        .members
        .iter()
        .find(|m| m.port == "Ethernet50")
        .unwrap();
    assert_eq!(m50.status, "standby", "partner gone, link still up");
    assert_eq!(snapshot.lags[0].bundled, 1);
}

#[test]
fn static_mode_bundles_without_a_partner() {
    let mut a = Engine::spawn([0x02, 0, 0, 0, 0, 0x01]);
    a.set_configs(
        32768,
        vec![lag(2, Mode::On, &["Ethernet1", "Ethernet2"])],
        0,
    );
    a.on_link(LinkEvent {
        port: "Ethernet1".into(),
        up: true,
    });
    let mut sent: usize = 0;
    for now in [0u64, 500, 1000, 1200] {
        sent += a.step(now).pdu_out.len();
    }
    let snapshot = a.snapshot(1200);
    assert!(!snapshot.lags[0].lacp);
    assert_eq!(snapshot.lags[0].bundled, 1, "only the live member");
    // Static mode never transmits LACPDUs.
    assert_eq!(sent, 0);
}

#[test]
fn min_links_holds_the_lag_down() {
    let mut pair = Pair::new();
    let mut config = lag(1, Mode::Active, &["Ethernet49", "Ethernet50"]);
    config.min_links = 2;
    pair.a.set_configs(32768, vec![config], 0);
    pair.b.set_configs(
        32768,
        vec![lag(1, Mode::Active, &["Ethernet49", "Ethernet50"])],
        0,
    );
    // Only one link is up: below min-links, nothing forwards.
    pair.link("Ethernet49", true);
    pair.settle(2500);
    let snapshot = pair.a.snapshot(pair.now);
    assert_eq!(snapshot.lags[0].bundled, 0);
    assert!(!snapshot.lags[0].up);
    // The second link satisfies the minimum.
    pair.link("Ethernet50", true);
    pair.settle(2500);
    assert_eq!(pair.a.snapshot(pair.now).lags[0].bundled, 2);
}

#[test]
fn fallback_individual_after_timeout() {
    let mut a = Engine::spawn([0x02, 0, 0, 0, 0, 0xaa]);
    let mut config = lag(1, Mode::Active, &["Ethernet49", "Ethernet50"]);
    config.fallback = Some(Fallback::Individual);
    config.fallback_timeout = 1000;
    a.set_configs(32768, vec![config], 0);
    for port in ["Ethernet49", "Ethernet50"] {
        a.on_link(LinkEvent {
            port: port.into(),
            up: true,
        });
    }
    for tick in 0..7u64 {
        a.step(tick * 500);
    }
    let snapshot = a.snapshot(3000);
    let lag_state = &snapshot.lags[0];
    assert!(lag_state.fallback_active);
    assert!(lag_state.up, "individual member forwards");
    let m49 = lag_state
        .members
        .iter()
        .find(|m| m.port == "Ethernet49")
        .unwrap();
    let m50 = lag_state
        .members
        .iter()
        .find(|m| m.port == "Ethernet50")
        .unwrap();
    assert_eq!(m49.status, "individual", "lowest port number wins");
    assert_eq!(m50.status, "standby");
}

#[test]
fn pdu_round_trips() {
    let partner = Partner {
        system_priority: 100,
        system: [1, 2, 3, 4, 5, 6],
        key: 7,
        port_priority: 200,
        port: 49,
        state: state::ACTIVITY | state::SYNC,
    };
    let frame = encode_pdu(
        [9; 6],
        32768,
        [0xaa; 6],
        1,
        32768,
        49,
        state::ACTIVITY | state::AGGREGATION,
        Some(&partner),
    );
    assert_eq!(frame.len(), 124);
    let decoded = decode_pdu(&frame).unwrap();
    assert_eq!(decoded.system, [0xaa; 6]);
    assert_eq!(decoded.key, 1);
    assert_eq!(decoded.port, 49);
    assert_eq!(decoded.state, state::ACTIVITY | state::AGGREGATION);
    assert!(decode_pdu(&frame[..20]).is_none());
    assert!(decode_pdu(&[0u8; 40]).is_none());
}

/// A link that goes down closes the member's gate at once, partner or not.
#[test]
fn gates_follow_the_link() {
    let mut a = Engine::spawn([0x02, 0, 0, 0, 0, 0x01]);
    a.set_configs(32768, vec![lag(2, Mode::On, &["Ethernet1"])], 0);
    let up = |up: bool| LinkEvent {
        port: "Ethernet1".into(),
        up,
    };
    a.on_link(up(true));
    let gates = a.step(0).gates;
    assert_eq!(gates.len(), 1);
    assert_eq!(gates[0].members, vec![("Ethernet1".to_string(), true)]);
    // Nothing changed: nothing to program.
    assert!(a.step(500).gates.is_empty());
    a.on_link(up(false));
    let gates = a.step(1000).gates;
    assert_eq!(gates[0].members, vec![("Ethernet1".to_string(), false)]);
    assert_eq!(a.snapshot(1000).lags[0].members[0].status, "down");
    assert!(a.has_room());
}
