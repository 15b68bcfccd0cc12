//! IGMP and MLD snooping.

use hemlock::checksum::ip_checksum;
use hemlock::ip::{parse_ip, IpAddr, Ipv4};
use hemlock::ordmap::OrdMap;
use hemlock::snoop::{
    encode_general_query, parse, Config, Engine, Family, GroupUpdate, Message, MrouterUpdate,
    VlanConfig,
};

fn ip(text: &str) -> IpAddr {
    parse_ip(text).unwrap()
}

fn v4(text: &str) -> Ipv4 {
    match ip(text) {
        IpAddr::V4(a) => a,
        IpAddr::V6(_) => panic!("not IPv4: {text}"),
    }
}

/// A v2 membership report frame for `group` from `source`.
fn v2_report(source: Ipv4, group: Ipv4) -> Vec<u8> {
    build_igmp(source, 0x16, group)
}

fn v2_leave(source: Ipv4, group: Ipv4) -> Vec<u8> {
    build_igmp(source, 0x17, group)
}

fn build_igmp(source: Ipv4, kind: u8, group: Ipv4) -> Vec<u8> {
    let mut igmp = vec![kind, 0, 0, 0];
    igmp.extend_from_slice(&group.bits.to_be_bytes());
    let sum = ip_checksum(&igmp);
    igmp[2..4].copy_from_slice(&sum.to_be_bytes());
    let mut ip = vec![0x45, 0, 0, 28, 0, 0, 0, 0, 1, 2, 0, 0];
    ip.extend_from_slice(&source.bits.to_be_bytes());
    ip.extend_from_slice(&group.bits.to_be_bytes());
    let sum = ip_checksum(&ip);
    ip[10..12].copy_from_slice(&sum.to_be_bytes());
    let mut frame = vec![0x01, 0x00, 0x5e, 0, 0, 1, 2, 0, 0, 0, 0, 9, 0x08, 0x00];
    frame.extend_from_slice(&ip);
    frame.extend_from_slice(&igmp);
    frame
}

fn fast_config(vlan: u16, config: VlanConfig) -> Config {
    let mut vlans: OrdMap<u16, VlanConfig> = OrdMap::new();
    vlans.insert(vlan, config);
    Config {
        robustness: 2,
        query_interval: 1_000,
        last_member_interval: 500,
        vlans,
        ..Config::default()
    }
}

/// An engine, its clock, and what it asked for so far.
struct Rig {
    engine: Engine,
    now: u64,
    groups: Vec<GroupUpdate>,
    mrouters: Vec<MrouterUpdate>,
    packets: Vec<(String, Vec<u8>)>,
}

impl Rig {
    fn new(config: Config) -> Rig {
        let mut engine = Engine::spawn(Family::Igmp, [0x02, 0, 0, 0, 0, 1]);
        engine.set_config(config);
        Rig {
            engine,
            now: 0,
            groups: Vec::new(),
            mrouters: Vec::new(),
            packets: Vec::new(),
        }
    }

    fn pass(&mut self) {
        for out in self.engine.step(self.now) {
            self.groups.extend(out.groups);
            self.mrouters.extend(out.mrouters);
            self.packets.extend(out.queries);
        }
    }

    /// The engine ticks every half second.
    fn settle(&mut self, millis: u64) {
        self.pass();
        let end = self.now + millis;
        while self.now < end {
            self.now += 100;
            if self.now % 500 == 0 {
                self.pass();
            }
        }
    }

    fn packet(&mut self, port: &str, vlan: u16, frame: Vec<u8>) {
        self.engine.on_packet(port, vlan, &frame, self.now);
        self.pass();
    }
}

#[test]
fn join_leave_and_fast_leave() {
    let mut rig = Rig::new(fast_config(
        10,
        VlanConfig {
            fast_leave: true,
            ..VlanConfig::default()
        },
    ));
    let group = v4("239.1.1.10");

    // Two hosts join on different ports.
    rig.packet("Ethernet1", 10, v2_report(v4("10.0.10.5"), group));
    rig.packet("Ethernet3", 10, v2_report(v4("10.0.10.6"), group));
    rig.settle(800);
    let snapshot = rig.engine.snapshot(rig.now);
    let vlan = snapshot.vlans.iter().find(|v| v.vlan == 10).unwrap();
    assert_eq!(vlan.groups.len(), 1);
    assert_eq!(vlan.groups[0].ports, ["Ethernet1", "Ethernet3"]);
    assert_eq!(vlan.groups[0].version, 2);
    assert!(rig
        .groups
        .iter()
        .any(|u| u.ports == ["Ethernet1", "Ethernet3"] && !u.remove));
    rig.groups.clear();

    // Fast-leave drops the member immediately.
    rig.packet("Ethernet1", 10, v2_leave(v4("10.0.10.5"), group));
    rig.settle(800);
    let snapshot = rig.engine.snapshot(rig.now);
    let vlan = snapshot.vlans.iter().find(|v| v.vlan == 10).unwrap();
    assert_eq!(vlan.groups[0].ports, ["Ethernet3"]);

    // The remaining member ages out without refreshes
    // (robustness 2 x 1s interval + 10s grace).
    rig.settle(13_000);
    let snapshot = rig.engine.snapshot(rig.now);
    let vlan = snapshot.vlans.iter().find(|v| v.vlan == 10).unwrap();
    assert!(vlan.groups.is_empty(), "membership aged out");
    assert!(rig.groups.iter().any(|u| u.remove));
}

#[test]
fn querier_election_and_mrouter_learning() {
    let mut rig = Rig::new(fast_config(
        20,
        VlanConfig {
            querier: true,
            querier_address: Some(ip("10.0.20.1")),
            ..VlanConfig::default()
        },
    ));
    let mut ports: OrdMap<u16, Vec<String>> = OrdMap::new();
    ports.insert(20, vec!["Ethernet2".to_string()]);
    rig.engine.set_vlan_ports(ports);

    // Our querier transmits general queries on the VLAN's ports.
    rig.settle(1_600);
    let (port, frame) = rig.packets[0].clone();
    assert_eq!(port, "Ethernet2");
    assert_eq!(
        parse(Family::Igmp, &frame),
        vec![Message::Query {
            source: ip("10.0.20.1")
        }]
    );
    assert!(rig.engine.snapshot(rig.now).vlans[0].querier_active);

    // A lower-addressed querier appears: we yield, and its port
    // becomes a dynamic mrouter.
    let foreign = encode_general_query(Family::Igmp, [0x02, 0, 0, 0, 0, 9], ip("10.0.20.0"));
    rig.packet("Ethernet7", 20, foreign);
    rig.settle(800);
    let snapshot = rig.engine.snapshot(rig.now);
    let vlan = &snapshot.vlans[0];
    assert!(!vlan.querier_active, "suppressed by the lower address");
    assert_eq!(vlan.dynamic_mrouters, ["Ethernet7"]);

    // The mrouter set restricts unknown multicast.
    let last = rig.mrouters.last().unwrap();
    assert!(last.restrict);
    assert_eq!(last.ports, ["Ethernet7"]);

    // Members' l2mc outputs take in the mrouter port.
    let group = v4("239.20.0.7");
    rig.packet("Ethernet2", 20, v2_report(v4("10.0.20.9"), group));
    rig.settle(800);
    assert!(rig
        .groups
        .iter()
        .any(|u| u.ports == ["Ethernet2", "Ethernet7"]));

    // The foreign querier goes quiet: we take over again.
    rig.settle(13_000);
    assert!(rig.engine.snapshot(rig.now).vlans[0].querier_active);
}

#[test]
fn igmpv3_and_mld_parse() {
    // IGMPv3: one TO_EX join and one TO_IN({}) leave.
    let mut igmp = vec![0x22, 0, 0, 0, 0, 0, 0, 2];
    igmp.extend_from_slice(&[4, 0, 0, 0, 239, 1, 1, 10]); // TO_EX join
    igmp.extend_from_slice(&[3, 0, 0, 0, 239, 1, 1, 11]); // TO_IN leave
    let sum = ip_checksum(&igmp);
    igmp[2..4].copy_from_slice(&sum.to_be_bytes());
    let mut header = vec![0x45, 0, 0, 44, 0, 0, 0, 0, 1, 2, 0, 0];
    header.extend_from_slice(&[10, 0, 0, 5]);
    header.extend_from_slice(&[224, 0, 0, 22]);
    let mut frame = vec![0x01, 0x00, 0x5e, 0, 0, 22, 2, 0, 0, 0, 0, 9, 0x08, 0x00];
    frame.extend_from_slice(&header);
    frame.extend_from_slice(&igmp);
    let messages = parse(Family::Igmp, &frame);
    assert_eq!(
        messages,
        vec![
            Message::Report {
                group: ip("239.1.1.10"),
                version: 3
            },
            Message::Leave {
                group: ip("239.1.1.11")
            },
        ]
    );

    // MLD: an encoded general query round-trips through the parser.
    let query = encode_general_query(Family::Mld, [0x02, 0, 0, 0, 0, 1], ip("fe80::1"));
    assert_eq!(
        parse(Family::Mld, &query),
        vec![Message::Query {
            source: ip("fe80::1")
        }]
    );

    // Junk stays junk.
    assert!(parse(Family::Igmp, &[0u8; 20]).is_empty());
    assert!(parse(Family::Mld, &[0u8; 20]).is_empty());
}

/// Without fast-leave a member stays until the last-member interval is over,
/// and a fresh report keeps it.
#[test]
fn leaves_wait_for_the_last_member_interval() {
    let mut rig = Rig::new(fast_config(10, VlanConfig::default()));
    let group = v4("239.1.1.10");
    rig.packet("Ethernet1", 10, v2_report(v4("10.0.10.5"), group));
    rig.packet("Ethernet1", 10, v2_leave(v4("10.0.10.5"), group));
    assert_eq!(rig.engine.snapshot(rig.now).vlans[0].groups.len(), 1);
    rig.packet("Ethernet1", 10, v2_report(v4("10.0.10.5"), group));
    rig.settle(2_000);
    assert_eq!(rig.engine.snapshot(rig.now).vlans[0].groups.len(), 1);
    rig.packet("Ethernet1", 10, v2_leave(v4("10.0.10.5"), group));
    rig.settle(2_000);
    assert!(rig.engine.snapshot(rig.now).vlans[0].groups.is_empty());
}

/// A VLAN that snooping is off in learns nothing.
#[test]
fn disabled_vlans_learn_nothing() {
    let mut rig = Rig::new(fast_config(
        10,
        VlanConfig {
            disabled: true,
            ..VlanConfig::default()
        },
    ));
    rig.packet("Ethernet1", 10, v2_report(v4("10.0.10.5"), v4("239.1.1.10")));
    rig.settle(800);
    assert!(rig.groups.is_empty());
    assert!(rig
        .engine
        .snapshot(rig.now)
        .vlans
        .iter()
        .all(|v| v.groups.is_empty()));
}
