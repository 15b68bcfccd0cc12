//! DHCP snooping, the DHCP relay and dynamic ARP inspection.

use hemlock::checksum::ip_checksum;
use hemlock::dhcp::{bootp_payload, with_giaddr};
use hemlock::ip::{parse_v4, Ipv4};
use hemlock::ordmap::{OrdMap, TextSet};
use hemlock::snoopsec::{
    restore, Config, DaiVlanStats, Engine, L2View, RedirectProgram, RelayVlan, StaticBinding,
    Validate,
};

const CLIENT_MAC: [u8; 6] = [0x00, 0x1c, 0x73, 0x0c, 0xaa, 0x01];
const SWITCH_MAC: [u8; 6] = [0x2c, 0xdd, 0xe9, 0x4a, 0x1b, 0x00];
const SERVER_MAC: [u8; 6] = [0x00, 0x50, 0x56, 0xbe, 0xef, 0x01];
const UNSPECIFIED: Ipv4 = Ipv4 { bits: 0 };

fn dhcp_frame(
    src_mac: [u8; 6],
    op: u8,
    chaddr: [u8; 6],
    yiaddr: Ipv4,
    message_type: u8,
    lease: Option<u32>,
) -> Vec<u8> {
    let mut dhcp = vec![0u8; 240];
    dhcp[0] = op;
    dhcp[1] = 1;
    dhcp[2] = 6;
    dhcp[16..20].copy_from_slice(&yiaddr.bits.to_be_bytes());
    dhcp[28..34].copy_from_slice(&chaddr);
    dhcp[236..240].copy_from_slice(&[99, 130, 83, 99]);
    dhcp.extend_from_slice(&[53, 1, message_type]);
    if let Some(lease) = lease {
        dhcp.extend_from_slice(&[51, 4]);
        dhcp.extend_from_slice(&lease.to_be_bytes());
    }
    dhcp.push(255);

    let mut udp = Vec::new();
    udp.extend_from_slice(&if op == 1 { 68u16 } else { 67u16 }.to_be_bytes());
    udp.extend_from_slice(&if op == 1 { 67u16 } else { 68u16 }.to_be_bytes());
    udp.extend_from_slice(&((8 + dhcp.len()) as u16).to_be_bytes());
    udp.extend_from_slice(&[0, 0]);
    udp.extend_from_slice(&dhcp);

    let mut ip = vec![0x45, 0];
    ip.extend_from_slice(&((20 + udp.len()) as u16).to_be_bytes());
    ip.extend_from_slice(&[0, 0, 0, 0, 64, 17, 0, 0]);
    ip.extend_from_slice(&[0, 0, 0, 0, 255, 255, 255, 255]);
    ip.extend_from_slice(&udp);

    let mut frame = Vec::new();
    frame.extend_from_slice(&[0xff; 6]);
    frame.extend_from_slice(&src_mac);
    frame.extend_from_slice(&0x0800u16.to_be_bytes());
    frame.extend_from_slice(&ip);
    frame
}

fn arp_frame(src_mac: [u8; 6], sha: [u8; 6], spa: Ipv4, reply: bool) -> Vec<u8> {
    let mut frame = Vec::new();
    frame.extend_from_slice(&[0xff; 6]);
    frame.extend_from_slice(&src_mac);
    frame.extend_from_slice(&0x0806u16.to_be_bytes());
    frame.extend_from_slice(&[0, 1, 8, 0, 6, 4]);
    frame.extend_from_slice(&if reply { 2u16 } else { 1u16 }.to_be_bytes());
    frame.extend_from_slice(&sha);
    frame.extend_from_slice(&spa.bits.to_be_bytes());
    frame.extend_from_slice(&[0u8; 6]);
    frame.extend_from_slice(&[0u8; 4]);
    frame
}

fn names(list: &[&str]) -> TextSet {
    TextSet::of_names(&list.iter().map(|s| s.to_string()).collect())
}

fn seed_config() -> Config {
    let mut dhcp_vlans: OrdMap<u16, ()> = OrdMap::new();
    dhcp_vlans.insert(10, ());
    let mut arp_vlans: OrdMap<u16, ()> = OrdMap::new();
    arp_vlans.insert(10, ());
    Config {
        dhcp_vlans,
        arp_vlans,
        validate: OrdMap::new(),
        dhcp_trusted: names(&["Port-Channel1"]),
        arp_trusted: names(&["Port-Channel1"]),
        statics: OrdMap::new(),
        relay: OrdMap::new(),
    }
}

fn seed_view() -> L2View {
    let mut vlan_ports: OrdMap<u16, TextSet> = OrdMap::new();
    vlan_ports.insert(
        10,
        names(&["Ethernet1", "Ethernet2", "Ethernet49", "Ethernet50"]),
    );
    let mut po_members: OrdMap<String, TextSet> = OrdMap::new();
    po_members.insert(
        "Port-Channel1".to_string(),
        names(&["Ethernet49", "Ethernet50"]),
    );
    L2View {
        vlan_ports,
        po_members,
    }
}

fn engine(config: Config) -> Engine {
    let mut engine = Engine::spawn(OrdMap::new(), SWITCH_MAC);
    engine.set_config(config);
    engine.set_l2_view(seed_view());
    engine
}

fn v4(text: &str) -> Ipv4 {
    parse_v4(text).unwrap()
}

/// A bare BOOTP reply, as it arrives on the relay socket (no
/// Ethernet/IP/UDP headers — the server sent it to giaddr:67).
fn bootp_reply(
    chaddr: [u8; 6],
    yiaddr: Ipv4,
    giaddr: Ipv4,
    message_type: u8,
    broadcast: bool,
) -> Vec<u8> {
    let mut payload = vec![0u8; 240];
    payload[0] = 2;
    payload[1] = 1;
    payload[2] = 6;
    if broadcast {
        payload[10] = 0x80;
    }
    payload[16..20].copy_from_slice(&yiaddr.bits.to_be_bytes());
    payload[24..28].copy_from_slice(&giaddr.bits.to_be_bytes());
    payload[28..34].copy_from_slice(&chaddr);
    payload[236..240].copy_from_slice(&[99, 130, 83, 99]);
    payload.extend_from_slice(&[53, 1, message_type]);
    payload.extend_from_slice(&[51, 4]);
    payload.extend_from_slice(&3600u32.to_be_bytes());
    payload.push(255);
    payload
}

fn relay_config() -> Config {
    let mut config = seed_config();
    config.relay.insert(
        10,
        RelayVlan {
            servers: vec![Ipv4::new(10, 42, 0, 5), Ipv4::new(10, 42, 0, 6)],
            giaddr: Ipv4::new(10, 0, 10, 1),
        },
    );
    config
}

fn arp_stats(engine: &Engine) -> DaiVlanStats {
    *engine.snapshot(0).arp_stats.get(&10).unwrap()
}

fn dhcp_dropped(engine: &Engine) -> u64 {
    engine.snapshot(0).dhcp_stats.get(&10).unwrap().dropped
}

/// The full relay round trip: a client broadcast is validated, has
/// giaddr stamped in and goes to every server; the reply comes back
/// on the socket, learns a binding, and re-injects toward the
/// client.
#[test]
fn relay_forwards_requests_and_returns_replies() {
    let mut engine = engine(relay_config());

    // A DISCOVER on an untrusted access port.
    let request = dhcp_frame(CLIENT_MAC, 1, CLIENT_MAC, UNSPECIFIED, 1, None);
    let effects = engine.handle_frame("Ethernet1", 10, &request, 0);

    // One datagram per server, each carrying the giaddr.
    let relayed = effects.relay_out;
    assert_eq!(
        relayed.iter().map(|d| d.server).collect::<Vec<_>>(),
        vec![Ipv4::new(10, 42, 0, 5), Ipv4::new(10, 42, 0, 6)]
    );
    for datagram in &relayed {
        assert_eq!(datagram.giaddr, Ipv4::new(10, 0, 10, 1));
        // giaddr stamped into the BOOTP header, hop count bumped.
        assert_eq!(&datagram.payload[24..28], &[10, 0, 10, 1]);
        assert_eq!(datagram.payload[3], 1);
        // It is the client's request, not a rewrite of one.
        assert_eq!(&datagram.payload[28..34], &CLIENT_MAC);
    }
    let snapshot = engine.snapshot(0);
    let (_, stats) = snapshot.relay.get(&10).unwrap();
    assert_eq!(stats.to_server, 1);

    // The OFFER comes back on the socket, addressed to giaddr.
    let effects = engine.handle_relay_reply(
        Ipv4::new(10, 0, 10, 1),
        &bootp_reply(
            CLIENT_MAC,
            Ipv4::new(10, 0, 10, 55),
            Ipv4::new(10, 0, 10, 1),
            2,
            true,
        ),
        0,
    );

    // A broadcast reply floods the VLAN.
    let mut targets: Vec<String> = effects.packet_out.iter().map(|(p, _)| p.clone()).collect();
    let frame = &effects.packet_out[0].1;
    targets.sort();
    assert_eq!(
        targets,
        vec!["Ethernet1", "Ethernet2", "Ethernet49", "Ethernet50"]
    );
    // A well-formed broadcast reply from the SVI's address.
    assert_eq!(&frame[0..6], &[0xff; 6]);
    assert_eq!(&frame[6..12], &SWITCH_MAC);
    assert_eq!(u16::from_be_bytes([frame[12], frame[13]]), 0x0800);
    assert_eq!(&frame[26..30], &[10, 0, 10, 1], "source is the giaddr");
    assert_eq!(&frame[30..34], &[255, 255, 255, 255]);
    assert_eq!(u16::from_be_bytes([frame[34], frame[35]]), 67);
    assert_eq!(u16::from_be_bytes([frame[36], frame[37]]), 68);
    // The IPv4 header checksum is real, not zero.
    assert_eq!(ip_checksum(&frame[14..34]), 0);

    let snapshot = engine.snapshot(0);
    let (_, stats) = snapshot.relay.get(&10).unwrap();
    assert_eq!((stats.to_server, stats.to_client, stats.dropped), (1, 1, 0));
}

/// A relayed lease is an ordinary snooping binding, so DAI accepts
/// the client's ARP afterwards — the whole reason the relay lives
/// inside this engine.
#[test]
fn relayed_leases_feed_the_binding_table() {
    let mut engine = engine(relay_config());

    // The request remembers which port the client is on...
    let effects = engine.handle_frame(
        "Ethernet1",
        10,
        &dhcp_frame(CLIENT_MAC, 1, CLIENT_MAC, UNSPECIFIED, 3, None),
        0,
    );
    assert_eq!(effects.relay_out.len(), 2);

    // ...and the ACK binds yiaddr to it.
    let effects = engine.handle_relay_reply(
        Ipv4::new(10, 0, 10, 1),
        &bootp_reply(
            CLIENT_MAC,
            Ipv4::new(10, 0, 10, 55),
            Ipv4::new(10, 0, 10, 1),
            5,
            false,
        ),
        0,
    );
    // Not a broadcast: it goes straight to the client's port.
    assert_eq!(effects.packet_out[0].0, "Ethernet1");

    let snapshot = engine.snapshot(0);
    let binding = snapshot
        .bindings
        .iter()
        .find(|b| b.mac == "00:1c:73:0c:aa:01")
        .expect("relayed lease should bind");
    assert_eq!(binding.ip, Ipv4::new(10, 0, 10, 55));
    assert_eq!(binding.interface, "Ethernet1");
    assert_eq!(binding.vlan, 10);

    // DAI now accepts that client's ARP.
    let effects = engine.handle_frame(
        "Ethernet1",
        10,
        &arp_frame(CLIENT_MAC, CLIENT_MAC, Ipv4::new(10, 0, 10, 55), false),
        0,
    );
    assert_ne!(
        effects.packet_out[0].0, "Ethernet1",
        "the ARP re-injects to the other ports"
    );
    assert_eq!(arp_stats(&engine).forwarded, 1);
    assert_eq!(arp_stats(&engine).dropped, 0);
}

/// The relay validates before it forwards: a spoofed chaddr never
/// reaches a server, and a VLAN with no giaddr counts the drop
/// rather than losing the request silently.
#[test]
fn relay_drops_what_snooping_would_drop() {
    let mut engine = engine(relay_config());

    // chaddr does not match the source MAC.
    let effects = engine.handle_frame(
        "Ethernet1",
        10,
        &dhcp_frame(
            CLIENT_MAC,
            1,
            [0xde, 0xad, 0xbe, 0xef, 0x00, 0x01],
            UNSPECIFIED,
            1,
            None,
        ),
        0,
    );
    assert!(effects.relay_out.is_empty(), "spoofed request relayed");
    assert_eq!(dhcp_dropped(&engine), 1);

    // A relay with no giaddr cannot forward; the drop is counted.
    let mut config = relay_config();
    config.relay.insert(
        10,
        RelayVlan {
            servers: vec![Ipv4::new(10, 42, 0, 5)],
            giaddr: UNSPECIFIED,
        },
    );
    engine.set_config(config);
    let effects = engine.handle_frame(
        "Ethernet1",
        10,
        &dhcp_frame(CLIENT_MAC, 1, CLIENT_MAC, UNSPECIFIED, 1, None),
        0,
    );
    assert!(effects.relay_out.is_empty());
    let snapshot = engine.snapshot(0);
    assert_eq!(snapshot.relay.get(&10).unwrap().1.dropped, 1);

    // A reply for a giaddr no relay owns is ignored entirely.
    let effects = engine.handle_relay_reply(
        Ipv4::new(192, 0, 2, 1),
        &bootp_reply(
            CLIENT_MAC,
            Ipv4::new(10, 0, 10, 55),
            Ipv4::new(192, 0, 2, 1),
            5,
            true,
        ),
        0,
    );
    assert!(effects.packet_out.is_empty());
    assert_eq!(engine.relay_vlan(Ipv4::new(192, 0, 2, 1)), None);
}

/// The BOOTP payload is bounded by the IP header's total length, so
/// Ethernet padding never reaches a server as option bytes.
#[test]
fn relayed_payloads_exclude_ethernet_padding() {
    let mut frame = dhcp_frame(CLIENT_MAC, 1, CLIENT_MAC, UNSPECIFIED, 1, None);
    let real = bootp_payload(&frame).unwrap();
    frame.extend_from_slice(&[0u8; 18]);
    assert_eq!(bootp_payload(&frame).unwrap(), real);
    // The payload really is the BOOTP message.
    assert_eq!(real[0], 1);
    assert_eq!(&real[236..240], &[99, 130, 83, 99]);
}

/// A request that already carries a giaddr keeps it: that relay
/// owns the reply path, and overwriting it would strand the client.
#[test]
fn an_existing_giaddr_is_left_alone() {
    let mut payload = vec![0u8; 240];
    payload[24..28].copy_from_slice(&[10, 9, 9, 9]);
    let relayed = with_giaddr(&payload, Ipv4::new(10, 0, 10, 1));
    assert_eq!(&relayed[24..28], &[10, 9, 9, 9]);
    assert_eq!(relayed[3], 1, "the hop count still counts this relay");

    let relayed = with_giaddr(&vec![0u8; 240], Ipv4::new(10, 0, 10, 1));
    assert_eq!(&relayed[24..28], &[10, 0, 10, 1]);
}

#[test]
fn redirects_expand_port_channels_and_split_trust() {
    let mut engine = Engine::spawn(OrdMap::new(), SWITCH_MAC);
    let first = engine.set_config(seed_config());
    let second = engine.set_l2_view(seed_view());
    let program: RedirectProgram = second.or(first).unwrap();
    let (vlan, untrusted, trusted) = &program.dhcp[0];
    assert_eq!(*vlan, 10);
    assert_eq!(untrusted, &["Ethernet1", "Ethernet2"]);
    assert_eq!(trusted, &["Ethernet49", "Ethernet50"]);
    let (vlan, untrusted) = &program.arp[0];
    assert_eq!(*vlan, 10);
    assert_eq!(untrusted, &["Ethernet1", "Ethernet2"]);

    // What was programmed is not programmed again.
    assert!(engine.set_l2_view(seed_view()).is_none());
    assert!(engine.set_config(seed_config()).is_none());
}

#[test]
fn dhcp_flow_learns_bindings_and_blocks_rogue_servers() {
    let mut engine = engine(seed_config());

    // A valid DISCOVER from an untrusted port re-injects toward
    // the trusted members.
    let effects = engine.handle_frame(
        "Ethernet1",
        10,
        &dhcp_frame(CLIENT_MAC, 1, CLIENT_MAC, UNSPECIFIED, 1, None),
        1_000,
    );
    let target = &effects.packet_out[0].0;
    assert!(["Ethernet49", "Ethernet50"].contains(&target.as_str()));
    let target2 = &effects.packet_out[1].0;
    assert_ne!(target, target2);

    // The server ACK (copied from a trusted port) creates the
    // lease-tracked binding on the client's port.
    let effects = engine.handle_frame(
        "Ethernet49",
        10,
        &dhcp_frame(
            SERVER_MAC,
            2,
            CLIENT_MAC,
            v4("10.0.10.101"),
            5,
            Some(86400),
        ),
        1_000,
    );
    assert!(effects.save);
    let snapshot = engine.snapshot(1_001);
    assert_eq!(snapshot.bindings.len(), 1);
    assert_eq!(snapshot.bindings[0].mac, "00:1c:73:0c:aa:01");
    assert_eq!(snapshot.bindings[0].interface, "Ethernet1");
    assert!(snapshot.bindings[0].lease_secs.unwrap() > 86000);

    // A server message from an untrusted port drops and counts.
    engine.handle_frame(
        "Ethernet2",
        10,
        &dhcp_frame(SERVER_MAC, 2, CLIENT_MAC, v4("10.0.10.200"), 5, Some(60)),
        1_001,
    );
    let snapshot = engine.snapshot(1_001);
    assert_eq!(snapshot.untrusted_server_drops, 1);
    assert_eq!(dhcp_dropped(&engine), 1);
    // The rogue offer never became a binding.
    assert_eq!(snapshot.bindings[0].ip, v4("10.0.10.101"));

    // A spoofed chaddr drops.
    engine.handle_frame(
        "Ethernet2",
        10,
        &dhcp_frame(SERVER_MAC, 1, CLIENT_MAC, UNSPECIFIED, 3, None),
        1_002,
    );
    assert_eq!(dhcp_dropped(&engine), 2);
}

#[test]
fn dai_validates_against_bindings_and_flags() {
    let mut config = seed_config();
    config.statics.insert(
        ("00:50:56:be:ef:99".into(), 10),
        StaticBinding {
            ip: v4("10.0.10.50"),
            interface: "Ethernet2".into(),
        },
    );
    let mut engine = engine(config);

    // Learn a dynamic binding via a DHCP ACK.
    engine.handle_frame(
        "Ethernet1",
        10,
        &dhcp_frame(CLIENT_MAC, 1, CLIENT_MAC, UNSPECIFIED, 3, None),
        0,
    );
    engine.handle_frame(
        "Ethernet49",
        10,
        &dhcp_frame(SERVER_MAC, 2, CLIENT_MAC, v4("10.0.10.101"), 5, Some(3600)),
        0,
    );

    // A valid ARP matching the binding forwards (re-injected to
    // the VLAN's other carriers).
    let effects = engine.handle_frame(
        "Ethernet1",
        10,
        &arp_frame(CLIENT_MAC, CLIENT_MAC, v4("10.0.10.101"), false),
        0,
    );
    assert_ne!(effects.packet_out[0].0, "Ethernet1");

    // A static binding validates too.
    let static_mac = [0x00, 0x50, 0x56, 0xbe, 0xef, 0x99];
    engine.handle_frame(
        "Ethernet2",
        10,
        &arp_frame(static_mac, static_mac, v4("10.0.10.50"), false),
        0,
    );

    // Claiming an address with no binding: bad-binding drop.
    engine.handle_frame(
        "Ethernet1",
        10,
        &arp_frame(CLIENT_MAC, CLIENT_MAC, v4("10.0.10.250"), false),
        0,
    );
    // A spoofed sender-MAC: bad src-mac drop (the default check).
    engine.handle_frame(
        "Ethernet1",
        10,
        &arp_frame(CLIENT_MAC, static_mac, v4("10.0.10.50"), false),
        0,
    );
    let stats = arp_stats(&engine);
    assert_eq!(stats.forwarded, 2);
    assert_eq!(stats.dropped, 2);
    assert_eq!(stats.bad_binding, 1);
    assert_eq!(stats.bad_src_mac, 1);
    // No check configured means the source MAC is checked.
    assert_eq!(engine.snapshot(0).validate, vec![Validate::SrcMac]);
}

#[test]
fn bindings_persist_across_engine_restart() {
    let store = {
        let mut engine = engine(seed_config());
        engine.handle_frame(
            "Ethernet1",
            10,
            &dhcp_frame(CLIENT_MAC, 1, CLIENT_MAC, UNSPECIFIED, 3, None),
            1_000,
        );
        engine.handle_frame(
            "Ethernet49",
            10,
            &dhcp_frame(SERVER_MAC, 2, CLIENT_MAC, v4("10.0.10.101"), 5, Some(3600)),
            1_000,
        );
        assert_eq!(engine.snapshot(1_000).bindings.len(), 1);
        engine.stored_bindings()
    };
    // A fresh engine on the same store comes back with the lease.
    let mut engine = Engine::spawn(restore(store, 1_010), SWITCH_MAC);
    engine.set_config(seed_config());
    let snapshot = engine.snapshot(1_010);
    assert_eq!(snapshot.bindings.len(), 1);
    assert_eq!(snapshot.bindings[0].mac, "00:1c:73:0c:aa:01");
    assert!(snapshot.bindings[0].lease_secs.unwrap() <= 3600);

    // Clearing dynamics empties the table (statics would stay).
    assert_eq!(engine.clear_bindings(None), 1);
    assert!(engine.snapshot(1_010).bindings.is_empty());
}

/// A lease that ran out is no binding: not after a restart, and not in a
/// running engine either.
#[test]
fn leases_run_out() {
    let mut engine = engine(seed_config());
    engine.handle_frame(
        "Ethernet1",
        10,
        &dhcp_frame(CLIENT_MAC, 1, CLIENT_MAC, UNSPECIFIED, 3, None),
        1_000,
    );
    engine.handle_frame(
        "Ethernet49",
        10,
        &dhcp_frame(SERVER_MAC, 2, CLIENT_MAC, v4("10.0.10.101"), 5, Some(60)),
        1_000,
    );
    assert_eq!(restore(engine.stored_bindings(), 1_059).entries.len(), 1);
    assert_eq!(restore(engine.stored_bindings(), 1_060).entries.len(), 0);
    assert!(!engine.expire_leases(1_059));
    assert!(engine.expire_leases(1_060));
    assert!(engine.snapshot(1_060).bindings.is_empty());
    assert!(engine.has_room(10));
}

/// A release unbinds the client.
#[test]
fn releases_unbind() {
    let mut engine = engine(seed_config());
    engine.handle_frame(
        "Ethernet1",
        10,
        &dhcp_frame(CLIENT_MAC, 1, CLIENT_MAC, UNSPECIFIED, 3, None),
        0,
    );
    engine.handle_frame(
        "Ethernet49",
        10,
        &dhcp_frame(SERVER_MAC, 2, CLIENT_MAC, v4("10.0.10.101"), 5, Some(60)),
        0,
    );
    assert_eq!(engine.clear_bindings(Some("00:00:00:00:00:00")), 0);
    assert_eq!(engine.snapshot(0).bindings.len(), 1);
    engine.handle_frame(
        "Ethernet1",
        10,
        &dhcp_frame(CLIENT_MAC, 1, CLIENT_MAC, UNSPECIFIED, 7, None),
        0,
    );
    assert!(engine.snapshot(0).bindings.is_empty());
}

/// A bare IPv4 header marked UDP is no DHCP frame.
#[test]
fn a_cut_off_udp_header_has_no_payload() {
    let mut frame = vec![0u8; 14];
    frame.extend_from_slice(&[0x45, 0, 0, 20, 0, 0, 0, 0, 64, 17, 0, 0]);
    frame.extend_from_slice(&[0; 8]);
    assert_eq!(frame.len(), 34);
    assert_eq!(bootp_payload(&frame), None);
    frame.extend_from_slice(&[0; 7]);
    assert_eq!(bootp_payload(&frame), None);
    frame.push(0);
    assert_eq!(bootp_payload(&frame), Some(Vec::new()));
}
