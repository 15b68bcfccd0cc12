//! What vtysh prints, as `show` answers it.

use hemlock::frrshow::{
    bgp_second_command, bgp_state, clear_bgp_command, ospf_state, vrrp_state, vtysh_json,
    BGP_ROUTES,
};

/// A command that failed and output that is no JSON are told apart.
#[test]
fn vtysh_failures_are_named() {
    assert_eq!(vtysh_json("ospf", None).unwrap_err(), "ospf is not running");
    assert_eq!(
        vtysh_json("ospf", Some("% Unknown command")).unwrap_err(),
        "unexpected vtysh output"
    );
    // White space round the document does not matter.
    let document = vtysh_json("ospf", Some("\n {\"a\": 7} \n")).unwrap();
    assert_eq!(document.num("a"), 7);
    assert_eq!(document.number("b"), None);
    assert_eq!(document.text("a"), "");
    assert!(document.flag("b", true));
}

#[test]
fn ospf_shows_areas_neighbors_and_interfaces() {
    let overview = r#"{"routerId":"10.255.0.9","spfExecutedCounter":14,
        "areas":{"0.0.0.0":{"areaIfTotalCounter":3}}}"#;
    let neighbors = r#"{"neighbors":{"10.255.0.1":[
        {"nbrPriority":1,"nbrState":"Full/DR","routerDeadIntervalTimerDueMsec":33211,
         "ifaceAddress":"10.9.9.0","ifaceName":"Ethernet48:10.9.9.1"}]}}"#;
    let interfaces = r#"{"interfaces":{"Ethernet48":
        {"ifUp":true,"ipAddress":"10.9.9.1","ipAddressPrefixlen":31,"area":"0.0.0.0",
         "routerId":"10.255.0.9","networkType":"POINTOPOINT","cost":10,"state":"Point-To-Point",
         "priority":1,"timerMsecs":10000,"timerDeadSecs":40,"nbrCount":1,"nbrAdjacentCount":1}}}"#;
    let state = ospf_state(Some(overview), Some(neighbors), Some(interfaces)).unwrap();
    assert_eq!(state.router_id, "10.255.0.9");
    assert_eq!(state.spf_runs, 14);
    assert_eq!(state.areas[0].id, "0.0.0.0");
    assert_eq!(state.areas[0].interfaces, 3);
    assert_eq!(state.neighbors[0].router_id, "10.255.0.1");
    assert_eq!(state.neighbors[0].state, "Full");
    assert_eq!(state.neighbors[0].interface, "Ethernet48");
    assert_eq!(state.neighbors[0].dead_time_msecs, 33211);
    assert_eq!(state.interfaces[0].name, "Ethernet48");
    assert_eq!(state.interfaces[0].address, "10.9.9.1/31");
    assert_eq!(state.interfaces[0].hello_interval, 10);
    assert_eq!(state.interfaces[0].dead_interval, 40);

    assert_eq!(
        ospf_state(Some("{}"), Some("{}"), Some("{}")).unwrap_err(),
        "ospf is not running"
    );
    assert_eq!(
        ospf_state(None, None, None).unwrap_err(),
        "ospf is not running"
    );
}

#[test]
fn bgp_shows_peers_routes_and_one_neighbor() {
    let summary = r#"{"ipv4Unicast":{"routerId":"10.255.0.9","as":65010,"peers":{
        "10.9.9.0":{"version":4,"remoteAs":65001,"msgRcvd":120,"msgSent":118,"inq":0,"outq":0,
                    "peerUptime":"01:02:03","state":"Established","pfxRcd":4},
        "10.9.9.2":{"version":4,"remoteAs":65002,"state":"Active","peerUptime":"never"}}}}"#;
    let table = r#"{"routes":{"10.50.0.0/24":[
        {"valid":true,"bestpath":true,"origin":"IGP","path":"65001","metric":5,
         "nexthops":[{"ip":"10.9.9.0"}]},
        {"valid":true,"origin":"incomplete","path":""}]}}"#;
    let state = bgp_state("", Some(summary), Some(table)).unwrap();
    assert_eq!((state.as_number, state.peers.len()), (65010, 2));
    assert_eq!(state.peers[0].ip, "10.9.9.0");
    assert_eq!(state.peers[0].pfx_rcvd, 4);
    // A peer that is not up has received nothing to count.
    assert_eq!(state.peers[1].pfx_rcvd, -1);
    assert_eq!(state.routes.len(), 2);
    assert_eq!(state.routes[0].path, "65001 i");
    assert_eq!(state.routes[0].metric, "5");
    assert_eq!(state.routes[0].loc_pref, "100");
    assert!(state.routes[0].best);
    assert_eq!(state.routes[1].path, "?");
    assert_eq!(state.routes[1].next_hop, "-");
    assert_eq!(state.routes[1].metric, "-");
    assert!(state.detail.is_none());

    let neighbor = r#"{"10.9.9.0":{"remoteAs":65001,"nbrDesc":"core-1","bgpState":"Established",
        "bgpTimerUpString":"01:02:03","messageStats":{"totalRecv":120,"totalSent":118},
        "prefixReceivedCount":4,"externalBgpNbrMaxHopsAway":1,
        "addressFamilyInfo":{"ipv4Unicast":{"acceptedPrefixCounter":3,"sentPrefixCounter":2,
            "routerAlwaysNextHop":true}}}}"#;
    let detail = bgp_state("10.9.9.0", Some(summary), Some(neighbor))
        .unwrap()
        .detail
        .unwrap();
    assert_eq!(detail.description, "core-1");
    assert_eq!((detail.msg_rcvd, detail.msg_sent), (120, 118));
    assert_eq!(detail.prefixes_accepted, 3);
    assert_eq!(detail.prefixes_advertised, 2);
    assert!(detail.next_hop_self);

    assert_eq!(
        bgp_state("10.9.9.9", Some(summary), Some(neighbor)).unwrap_err(),
        "no such neighbor 10.9.9.9"
    );
    assert_eq!(
        bgp_state("", Some("{}"), Some("{}")).unwrap_err(),
        "bgp is not running"
    );
    assert_eq!(bgp_second_command(""), BGP_ROUTES);
    assert_eq!(
        bgp_second_command("10.9.9.0"),
        "show bgp neighbors 10.9.9.0 json"
    );
    assert_eq!(clear_bgp_command(""), "clear bgp *");
    assert_eq!(clear_bgp_command("10.9.9.0"), "clear bgp 10.9.9.0");
}

#[test]
fn vrrp_shows_groups_in_milliseconds() {
    let output = r#"[{"interface":"Vlan99","vrid":10,"priority":120,"advertisementIntervalCs":100,
        "preemptMode":false,"v4":{"effectivePriority":120,"status":"Master","skewTimeCs":53,
        "masterDownIntervalCs":353,"statusLastChangeSecs":77,
        "addresses":["10.0.99.254/24","10.0.99.253"]}}]"#;
    let groups = vrrp_state(Some(output)).unwrap().unwrap();
    let group = &groups[0];
    assert_eq!(group.interface, "Vlan99");
    assert_eq!(group.virtual_mac, "00:00:5e:00:01:0a");
    assert_eq!(group.advertisement_interval_ms, 1000);
    assert_eq!(group.skew_time_ms, 530);
    assert_eq!(group.master_down_interval_ms, 3530);
    assert!(!group.preempt);
    assert_eq!(group.addresses, vec!["10.0.99.254", "10.0.99.253"]);
    assert_eq!(group.seconds_since_transition, Some(77));

    assert_eq!(
        vrrp_state(Some("{}")).unwrap_err(),
        "vrrp is not running"
    );
    // An interval that no count of milliseconds holds.
    let output = r#"[{"interface":"Vlan99","vrid":1,"advertisementIntervalCs":4294967295}]"#;
    assert!(vrrp_state(Some(output)).unwrap().is_none());
}
