//! What joins the engines: frames and sockets, the interface table, requests
//! and answers.

use hemlock::answers::{
    dot1x_state, lacp_state, lldp_shown, snoop_sec_state, status_detail, stp_state, system_id,
};
use hemlock::interfaces::{AdminState, InterfaceState, OperStatus};
use hemlock::ip::Ipv4;
use hemlock::ordmap::{OrdMap, TextSet};
use hemlock::requests::{
    after_attempt, after_mac_attempt, dot1x_config, lag_configs, lldp_config, snoop_engine,
    snoop_sec_config, snooping_config, stp_config, Attempt, Dot1xRequest, LacpConfigMode, LagFallbackMode,
    LagMemberRequest, LagRequest, LldpRequest, MacNext, MstInstanceRequest, Next, RadiusRequest,
    SnoopSecRequest, SnoopVlanRequest, SnoopingRequest, StaticRequest, StpPortRequest, StpRequest,
};
use hemlock::topology::{
    base_mac, hostname, l2_view, l3_interfaces, lldp_ports, lldp_system, management_address, pvids,
    vlan_ports,
};
use hemlock::transport::{set_pvids, snoop_relevant, snoopsec_relevant, Sink, Transport};
use hemlock::{dot1x, lacp, lldp, sflow, snmpsub, snoop, snoopsec, stp};

fn interface(name: &str, kind: &str) -> InterfaceState {
    InterfaceState {
        name: name.into(),
        kind: kind.into(),
        index: 0,
        admin_state: AdminState::Up,
        oper_status: OperStatus::Up,
        mac: "2c:dd:e9:4a:1b:01".into(),
        mtu: 9100,
        speed_mbps: 1000,
        description: String::new(),
        seconds_since_change: None,
        seconds_since_clear: None,
        counters: None,
        ip_addresses: Vec::new(),
        switchport_mode: String::new(),
        native_vlan: 0,
        access_vlan: 0,
        trunk_vlans: Vec::new(),
        members: Vec::new(),
    }
}

fn access(name: &str, vlan: u32) -> InterfaceState {
    let mut i = interface(name, "ethernet");
    i.switchport_mode = "access".into();
    i.access_vlan = vlan;
    i
}

fn trunk(name: &str, native: u32, vlans: &[u32]) -> InterfaceState {
    let mut i = interface(name, "ethernet");
    i.switchport_mode = "trunk".into();
    i.native_vlan = native;
    i.trunk_vlans = vlans.to_vec();
    i
}

fn names(set: &TextSet) -> Vec<String> {
    set.names()
}

// -------------------------------------------------------------- transport

fn frame(ethertype: u16, len: usize) -> Vec<u8> {
    let mut out = vec![0u8; len];
    out[12..14].copy_from_slice(&ethertype.to_be_bytes());
    out
}

#[test]
fn frames_go_to_the_engine_that_wants_them() {
    let mut transport = Transport::new();
    let mut map: OrdMap<String, u16> = OrdMap::new();
    map.insert("Ethernet1".into(), 10);
    set_pvids(&mut transport, map);
    assert_eq!(transport.pvid("Ethernet1"), 10);
    assert_eq!(transport.pvid("Ethernet9"), 1);

    assert_eq!(
        transport.dispatch("Ethernet1", &frame(0x8809, 60)),
        Sink::Lacp
    );
    assert_eq!(
        transport.dispatch("Ethernet1", &frame(0x88cc, 60)),
        Sink::Lldp
    );
    let mut bpdu = frame(38, 60);
    bpdu[..6].copy_from_slice(&stp::STP_DST);
    assert_eq!(transport.dispatch("Ethernet1", &bpdu), Sink::Stp);
    let mut igmp = frame(0x0800, 60);
    igmp[23] = 2;
    assert!(snoop_relevant(0x0800, &igmp));
    assert_eq!(
        transport.dispatch("Ethernet1", &igmp),
        Sink::Snoop {
            ethertype: 0x0800,
            vlan: 10
        }
    );
    let arp = frame(0x0806, 60);
    assert!(snoopsec_relevant(0x0806, &arp));
    assert_eq!(
        transport.dispatch("Ethernet1", &arp),
        Sink::Snoopsec { vlan: 10 }
    );
    assert_eq!(
        transport.dispatch("Ethernet1", &frame(0x0800, 60)),
        Sink::Nobody
    );
    assert_eq!(transport.dispatch("Ethernet1", &[0u8; 13]), Sink::Nobody);
}

/// Sockets follow what is wanted, and an attached port is not opened twice.
#[test]
fn sockets_follow_what_is_wanted() {
    let mut transport = Transport::new();
    let mut map: OrdMap<String, u16> = OrdMap::new();
    map.insert("Ethernet1".into(), 10);
    map.insert("Ethernet2".into(), 10);
    set_pvids(&mut transport, map);
    let wanted = transport.wanted(&Vec::new(), &Vec::new(), &Vec::new());
    assert_eq!(names(&wanted), vec!["Ethernet1", "Ethernet2"]);
    let plan = transport.plan(&wanted);
    assert_eq!(plan.attach, vec!["Ethernet1", "Ethernet2"]);
    assert!(plan.detach.is_empty());
    transport.opened("Ethernet1");
    assert!(transport.is_attached("Ethernet1"));
    // The one that could not be opened is tried again.
    assert_eq!(transport.plan(&wanted).attach, vec!["Ethernet2"]);
    let plan = transport.plan(&TextSet::new());
    assert_eq!(plan.detach, vec!["Ethernet1"]);
    assert!(!transport.is_attached("Ethernet1"));
}

// --------------------------------------------------------------- topology

#[test]
fn vlans_list_their_carriers() {
    let mut routed = interface("Ethernet48", "ethernet");
    routed.ip_addresses = vec!["10.9.9.1/31".into()];
    let mut svi = interface("Vlan99", "vlan");
    svi.ip_addresses = vec!["10.42.10.9/24".into()];
    let mut management = interface("Management1", "management");
    management.mac = "2c:dd:e9:4a:1b:00".into();
    management.ip_addresses = vec!["10.42.0.9/24".into()];
    let all = vec![
        access("Ethernet1", 10),
        trunk("Ethernet2", 99, &[10, 20]),
        routed,
        svi,
        management,
    ];
    let map = vlan_ports(&all);
    assert_eq!(map.get(&10).unwrap(), &vec!["Ethernet1", "Ethernet2"]);
    assert_eq!(map.get(&20).unwrap(), &vec!["Ethernet2"]);
    let map = pvids(&all);
    assert_eq!(map.get(&"Ethernet1".to_string()), Some(&10));
    assert_eq!(map.get(&"Ethernet2".to_string()), Some(&99));
    assert_eq!(map.get(&"Vlan99".to_string()), None);

    let view = l2_view(&all);
    assert_eq!(
        names(view.vlan_ports.get(&10).unwrap()),
        vec!["Ethernet1", "Ethernet2"]
    );
    assert_eq!(names(&l3_interfaces(&all)), vec!["Ethernet48", "Vlan99"]);
    assert_eq!(management_address(&all), "10.42.0.9");
    let system = lldp_system(&all, "hemlock", "0.1.0");
    assert_eq!(system.description, "Hemlock NOS version 0.1.0");
    assert_eq!(system.management_address, "10.42.0.9");
    assert_eq!(base_mac(&all), Some(system.chassis_mac));
    assert!(lldp_ports(&all).contains(&"Ethernet1".to_string()));
    assert!(!lldp_ports(&all).contains(&"Vlan99".to_string()));
}

#[test]
fn hostnames_fall_back() {
    assert_eq!(hostname(&Some("leaf-3\n".into()), &None), "leaf-3");
    assert_eq!(hostname(&None, &Some("leaf-4\n".into())), "leaf-4");
    assert_eq!(hostname(&Some("\n".into()), &None), "hemlock");
    assert_eq!(hostname(&None, &None), "hemlock");
}

// --------------------------------------------------------------- requests

fn lag_member(mode: LacpConfigMode, port_priority: u32) -> LagMemberRequest {
    LagMemberRequest {
        port: "Ethernet49".into(),
        mode,
        rate_fast: true,
        port_priority,
    }
}

fn lag_request(group: u32, min_links: u32, member: LagMemberRequest) -> LagRequest {
    LagRequest {
        group,
        min_links,
        fallback: LagFallbackMode::Individual,
        fallback_timeout_secs: 30,
        members: vec![member],
    }
}

#[test]
fn lag_requests_are_checked() {
    let good = || lag_member(LacpConfigMode::Active, 0);
    let (priority, configs) = lag_configs(0, &vec![lag_request(1, 2, good())]).ok().unwrap();
    assert_eq!(priority, 32768);
    assert_eq!(configs[0].group, 1);
    assert_eq!(configs[0].fallback, Some(lacp::Fallback::Individual));
    assert_eq!(configs[0].fallback_timeout, 30_000);
    let member = configs[0].members.get(&"Ethernet49".to_string()).unwrap();
    assert_eq!(member.mode, lacp::Mode::Active);
    assert_eq!(member.port_priority, 32768);

    let why = |priority: u32, lag: LagRequest| lag_configs(priority, &vec![lag]).err().unwrap();
    assert_eq!(why(65536, lag_request(1, 0, good())), "bad system-priority");
    assert_eq!(why(0, lag_request(65, 0, good())), "bad group 65");
    assert_eq!(why(0, lag_request(1, 256, good())), "bad min-links");
    assert_eq!(
        why(
            0,
            lag_request(1, 0, lag_member(LacpConfigMode::Active, 65536))
        ),
        "bad port-priority"
    );
    assert_eq!(
        why(
            0,
            lag_request(1, 0, lag_member(LacpConfigMode::Unspecified, 0))
        ),
        "unspecified lacp mode"
    );
}

#[test]
fn lldp_requests_are_checked() {
    let request = |tx_interval: u32, hold_multiplier: u32| LldpRequest {
        disabled: false,
        tx_interval,
        hold_multiplier,
        disabled_ports: vec!["Ethernet3".into()],
    };
    let config = lldp_config(&request(0, 0)).ok().unwrap();
    assert_eq!(config.tx_interval, 30_000);
    assert_eq!(config.hold_multiplier, 4);
    assert!(config.disabled_ports.has("Ethernet3"));
    assert_eq!(
        lldp_config(&request(4, 0)).err().unwrap(),
        "bad tx-interval 4"
    );
    assert_eq!(
        lldp_config(&request(0, 11)).err().unwrap(),
        "bad hold-multiplier 11"
    );
}

fn stp_request() -> StpRequest {
    StpRequest {
        mode: "rstp".into(),
        priority: 4096,
        hello_time: 0,
        max_age: 0,
        forward_time: 0,
        mst_name: "region".into(),
        mst_revision: 1,
        instances: vec![MstInstanceRequest {
            instance: 1,
            vlans: vec![10, 20],
        }],
        ports: vec![StpPortRequest {
            port: "Ethernet1".into(),
            portfast: true,
            bpduguard: true,
            cost: 0,
            priority: 128,
        }],
    }
}

#[test]
fn stp_requests_are_checked() {
    let config = stp_config(&stp_request()).ok().unwrap();
    assert_eq!(config.mode, stp::Mode::Rstp);
    assert_eq!(config.priority, 4096);
    let port = config.ports.get(&"Ethernet1".to_string()).unwrap();
    assert_eq!(port.cost, None);
    assert_eq!(config.instances.get(&1).unwrap(), &vec![10, 20]);

    let why = |change: &dyn Fn(&mut StpRequest)| {
        let mut request = stp_request();
        change(&mut request);
        stp_config(&request).err().unwrap()
    };
    assert_eq!(why(&|r| r.mode = "pvst".into()), "bad stp mode \"pvst\"");
    assert_eq!(why(&|r| r.priority = 65536), "bad priority");
    assert_eq!(why(&|r| r.hello_time = 256), "bad hello-time");
    assert_eq!(why(&|r| r.max_age = 256), "bad max-age");
    assert_eq!(why(&|r| r.forward_time = 256), "bad forward-time");
    assert_eq!(why(&|r| r.mst_revision = 65536), "bad mst revision");
    assert_eq!(why(&|r| r.ports[0].priority = 256), "bad port priority");
    assert_eq!(
        why(&|r| r.instances[0].instance = 256),
        "bad mst instance"
    );
}

#[test]
fn snooping_requests_are_checked() {
    let request = |family: &str, vlan: u32, querier: &str, robustness: u32| SnoopingRequest {
        family: family.into(),
        disabled: false,
        robustness,
        vlans: vec![SnoopVlanRequest {
            vlan,
            disabled: false,
            fast_leave: true,
            querier: true,
            querier_address: querier.into(),
            mrouters: vec!["Ethernet7".into()],
        }],
    };
    let config = snooping_config(&request("igmp", 20, "10.0.20.1", 3)).ok().unwrap();
    let (family, config) = config;
    assert_eq!(family, snoop::Family::Igmp);
    assert_eq!(config.robustness, 3);
    assert!(config.vlans.get(&20).unwrap().fast_leave);
    assert_eq!(snoop_engine("mld"), Ok(snoop::Family::Mld));
    assert_eq!(
        snoop_engine("pim").err().unwrap(),
        "bad snooping family \"pim\""
    );
    let why = |r: SnoopingRequest| snooping_config(&r).err().unwrap();
    assert_eq!(why(request("igmp", 4095, "", 0)), "bad vlan 4095");
    assert_eq!(
        why(request("igmp", 20, "nowhere", 0)),
        "bad querier address \"nowhere\""
    );
    assert_eq!(why(request("igmp", 20, "", 256)), "bad robustness");
}

#[test]
fn dot1x_requests_are_checked() {
    let request = |port: u32, timeout_secs: u32, retransmit: u32| Dot1xRequest {
        radius_servers: vec![RadiusRequest {
            ip: "10.42.0.5".into(),
            key: "k".into(),
            port,
            timeout_secs,
            retransmit,
        }],
        reauth_interval: 3600,
        ports: vec!["Ethernet10".into()],
    };
    let config = dot1x_config(&request(1812, 5, 3)).ok().unwrap();
    assert_eq!(config.radius[0].port, 1812);
    assert!(config.ports.has("Ethernet10"));
    let why = |r: Dot1xRequest| dot1x_config(&r).err().unwrap();
    assert_eq!(why(request(65536, 5, 3)), "bad radius port");
    assert_eq!(why(request(1812, 65536, 3)), "bad radius timeout");
    assert_eq!(why(request(1812, 5, 65536)), "bad radius retransmit");
}

fn sec_request() -> SnoopSecRequest {
    SnoopSecRequest {
        dhcp_vlans: vec![10],
        arp_vlans: vec![10],
        validate: vec!["src-mac".into(), "ip".into()],
        dhcp_trusted: vec!["Port-Channel1".into()],
        arp_trusted: Vec::new(),
        static_bindings: vec![StaticRequest {
            mac: "00:50:56:be:ef:99".into(),
            address: "10.0.10.50".into(),
            vlan: 10,
            interface: "Ethernet2".into(),
        }],
    }
}

#[test]
fn snoop_security_requests_are_checked() {
    let config = snoop_sec_config(&sec_request()).ok().unwrap();
    assert!(config.dhcp_vlans.contains(&10));
    assert!(config.validate.contains(&snoopsec::Validate::Ip));
    let binding = config
        .statics
        .get(&("00:50:56:be:ef:99".to_string(), 10))
        .unwrap();
    assert_eq!(binding.ip, Ipv4::new(10, 0, 10, 50));
    let why = |change: &dyn Fn(&mut SnoopSecRequest)| {
        let mut request = sec_request();
        change(&mut request);
        snoop_sec_config(&request).err().unwrap()
    };
    assert_eq!(why(&|r| r.dhcp_vlans = vec![4095]), "bad VLAN 4095");
    assert_eq!(why(&|r| r.arp_vlans = vec![0]), "bad VLAN 0");
    assert_eq!(
        why(&|r| r.validate = vec!["tpa".into()]),
        "bad validate \"tpa\""
    );
    assert_eq!(
        why(&|r| r.static_bindings[0].address = "x".into()),
        "bad address \"x\""
    );
}

#[test]
fn pushes_retry_and_give_up() {
    assert_eq!(after_attempt(1, Attempt::Taken), Next::Done);
    assert_eq!(after_attempt(1, Attempt::Gone), Next::Done);
    assert_eq!(after_attempt(4, Attempt::Failed), Next::Retry);
    assert_eq!(after_attempt(5, Attempt::Failed), Next::GiveUp);
}

// ---------------------------------------------------------------- answers

#[test]
fn answers_spell_out_the_engines() {
    assert_eq!(
        system_id(32768, [0x2c, 0xdd, 0xe9, 0x4a, 0x1b, 0]),
        "32768,2c:dd:e9:4a:1b:00"
    );
    assert_eq!(
        status_detail(2, stp::Mode::Rstp),
        "lacp engine: 2 lag(s); stp mode rstp"
    );

    let good = lag_member(LacpConfigMode::Active, 0);
    let (priority, configs) = lag_configs(0, &vec![lag_request(1, 2, good)]).ok().unwrap();
    let mut engine = lacp::Engine::spawn([0x02, 0, 0, 0, 0, 0xaa]);
    engine.set_configs(priority, configs, 0);
    let state = lacp_state(&engine.snapshot(0));
    assert_eq!(state.system_id, "32768,02:00:00:00:00:aa");
    assert_eq!(state.lags[0].fallback_mode, "individual");
    assert_eq!(state.lags[0].fallback_timeout_secs, 30);
    assert_eq!(state.lags[0].members[0].port, "Ethernet49");
    assert_eq!(state.lags[0].members[0].partner_system, "");

    let mut engine = stp::Engine::spawn([0x02, 0, 0, 0, 0, 0x10]);
    engine.set_config(stp_config(&stp_request()).ok().unwrap());
    engine.on_link(
        stp::LinkEvent {
            port: "Ethernet1".into(),
            up: true,
            speed_mbps: 1000,
        },
        0,
    );
    engine.step(0);
    let state = stp_state(&engine.snapshot(0));
    assert_eq!(state.mode, "rstp");
    assert!(state.is_root);
    assert_eq!(state.bridge_mac, "02:00:00:00:00:10");
    assert_eq!(state.bridge_priority, 4096);
    assert_eq!(state.instances, vec![(1, vec![10, 20])]);
    assert_eq!(state.ports[0].state, "forwarding");

    let mut engine = snoopsec::Engine::spawn(OrdMap::new(), [0x02, 0, 0, 0, 0, 1]);
    engine.set_config(snoop_sec_config(&sec_request()).ok().unwrap());
    let state = snoop_sec_state(&engine.snapshot(0));
    assert_eq!(state.validate, vec!["src-mac", "ip"]);
    assert_eq!(state.bindings[0].address, "10.0.10.50");
    assert!(state.bindings[0].is_static);
}

#[test]
fn shows_filter_by_port() {
    let mut engine = dot1x::Engine::spawn();
    let request = Dot1xRequest {
        radius_servers: vec![RadiusRequest {
            ip: "10.42.0.5".into(),
            key: "k".into(),
            port: 1812,
            timeout_secs: 5,
            retransmit: 3,
        }],
        reauth_interval: 3600,
        ports: vec!["Ethernet10".into(), "Ethernet11".into()],
    };
    engine.set_config(dot1x_config(&request).ok().unwrap());
    engine.handle_event(
        dot1x::CtrlEvent::AuthSuccess {
            port: "Ethernet10".into(),
            mac: "00:1c:73:0c:aa:10".into(),
        },
        1_000,
    );
    let state = dot1x_state(&engine.snapshot(), "", 5_000).ok().unwrap();
    assert_eq!(state.radius_servers, vec!["10.42.0.5:1812"]);
    assert_eq!(state.ports.len(), 2);
    assert_eq!(state.ports[0].status, "authorized");
    assert_eq!(state.ports[0].last_auth_secs_ago, Some(4));
    assert_eq!(state.ports[1].status, "unauthorized");
    let state = dot1x_state(&engine.snapshot(), "Ethernet11", 5_000).ok().unwrap();
    assert_eq!(state.ports.len(), 1);
    assert_eq!(
        dot1x_state(&engine.snapshot(), "Ethernet12", 0).err().unwrap(),
        "dot1x is not enabled on Ethernet12"
    );

    let mut engine = lldp::Engine::spawn([0x02, 0, 0, 0, 0, 1]);
    engine.set_ports(lldp_ports(&vec![
        interface("Ethernet1", "ethernet"),
        interface("Ethernet2", "ethernet"),
    ]));
    let snapshot = engine.snapshot(0);
    assert_eq!(lldp_shown(&snapshot, ""), vec![0, 1]);
    assert_eq!(lldp_shown(&snapshot, "Ethernet2"), vec![1]);
    assert!(lldp_shown(&snapshot, "Ethernet9").is_empty());
}

/// The base MAC is asked for a while; then a local one has to do.
#[test]
fn the_base_mac_gets_its_attempts() {
    let mac = [0x2c, 0xdd, 0xe9, 0x4a, 0x1b, 0x01];
    assert_eq!(after_mac_attempt(1, Some(mac)), MacNext::Known(mac));
    assert_eq!(after_mac_attempt(10, Some(mac)), MacNext::Known(mac));
    assert_eq!(after_mac_attempt(9, None), MacNext::Retry);
    assert_eq!(
        after_mac_attempt(10, None),
        MacNext::Local([0x02, 0x00, 0x00, 0x00, 0x00, 0x01])
    );
}

/// The engines start with nothing configured.
#[test]
fn engines_start_unconfigured() {
    let mac = [0x02, 0, 0, 0, 0, 1];
    let sec = snoopsec::Engine::spawn(OrdMap::new(), mac);
    assert!(sec.config.validate.entries.is_empty());
    assert!(sec.config.dhcp_trusted.entries.is_empty());
    assert!(sec.config.arp_trusted.entries.is_empty());
    assert!(sec.view.po_members.entries.is_empty());
    let tree = stp::Engine::spawn(mac);
    assert_eq!(tree.config.mst_name, "");
    assert_eq!(tree.config.mst_revision, 0);
    let flow = sflow::Engine::new(0);
    assert_eq!(flow.config.sample_rate, 0);
    assert_eq!(flow.config.polling_interval, 0);
    assert_eq!(flow.config.agent_address.bits, 0);
    assert_eq!(flow.config.agent_interface, "");
    assert!(flow.config.enabled_ports.is_empty());
    assert!(flow.config.disabled_ports.is_empty());
    let snmp = snmpsub::Engine::new();
    assert_eq!(snmp.config.location, "");
    assert_eq!(snmp.config.contact, "");
    assert!(snmp.config.communities.is_empty());
    assert!(snmp.config.users.is_empty());
    assert_eq!(snmp.config.listen_interface, "");
    assert_eq!(snmp.config.listen_address, "");
}
