//! The RIB: kernel dumps, the FIB program they want, and what `show` prints.

use hemlock::ip::{parse_ip, IpAddr, Ipv4};
use hemlock::ordmap::TextSet;
use hemlock::rib::{
    anchored, derive_program, diff_program, flush_args, page_routes, parse_neighbors, parse_routes,
    Engine, FibOp, KernelHop, KernelNeighbor, KernelRoute, Program, WantedRoute,
};

/// An IPv6 address written out in full.
fn v6_text(hi: u64, lo: u64) -> String {
    let mut groups: Vec<String> = Vec::new();
    for half in [hi, lo] {
        for shift in [48u32, 32, 16, 0] {
            groups.push(format!("{:x}", (half >> shift) & 0xffff));
        }
    }
    groups.join(":")
}

fn l3(names: &[&str]) -> TextSet {
    TextSet::of_names(&names.iter().map(|n| n.to_string()).collect())
}

fn wanted<'a>(program: &'a Program, prefix: &str) -> &'a WantedRoute {
    program.routes.get(&prefix.to_string()).unwrap()
}

fn holds(program: &Program, prefix: &str) -> bool {
    program.routes.contains(&prefix.to_string())
}

fn hop(via: &str, dev: &str) -> KernelHop {
    KernelHop {
        via: Some(via.into()),
        dev: Some(dev.into()),
    }
}

fn route(prefix: &str, protocol: &str, hops: Vec<KernelHop>) -> KernelRoute {
    KernelRoute {
        prefix: prefix.into(),
        protocol: protocol.into(),
        metric: 0,
        blackhole: false,
        hops,
    }
}

fn neighbor(ip: &str, dev: &str, mac: &str, reachable: bool) -> KernelNeighbor {
    KernelNeighbor {
        ip: ip.into(),
        dev: dev.into(),
        mac: Some(mac.into()),
        permanent: false,
        reachable,
        stale: !reachable,
        age_secs: Some(12),
    }
}

#[test]
fn parses_iproute2_json() {
    let json = r#"[
        {"dst":"default","gateway":"10.42.10.1","dev":"Vlan99","protocol":"static","flags":[]},
        {"dst":"10.42.10.0/24","dev":"Vlan99","protocol":"kernel","scope":"link","prefsrc":"10.42.10.9","flags":[]},
        {"dst":"10.99.0.0/16","protocol":"static","metric":250,"flags":[],
         "nexthops":[{"gateway":"10.9.9.0","dev":"Ethernet48","weight":1,"flags":[]},
                     {"gateway":"10.42.10.7","dev":"Vlan99","weight":1,"flags":[]}]},
        {"type":"blackhole","dst":"192.0.2.0/24","protocol":"static","flags":[]},
        {"dst":"10.50.99.1","gateway":"10.42.10.7","dev":"Vlan99","protocol":"ospf","metric":20,"flags":[]}
    ]"#;
    let routes = parse_routes(json, false);
    assert_eq!(routes.len(), 5);
    assert_eq!(routes[0].prefix, "0.0.0.0/0");
    assert_eq!(routes[0].hops, vec![hop("10.42.10.1", "Vlan99")]);
    assert_eq!(routes[1].prefix, "10.42.10.0/24");
    assert_eq!(routes[1].hops[0].via, None);
    assert_eq!(routes[2].metric, 250);
    assert_eq!(routes[2].hops.len(), 2);
    assert!(routes[3].blackhole);
    assert_eq!(routes[4].prefix, "10.50.99.1/32");

    let json = r#"[{"dst":"2001:db8:99::/48","gateway":"2001:db8:9::1","dev":"Ethernet48","protocol":"static","metric":1024,"pref":"medium"}]"#;
    let routes = parse_routes(json, true);
    assert_eq!(routes[0].prefix, "2001:db8:99::/48");

    let json = r#"[
        {"dst":"10.42.10.1","dev":"Vlan99","lladdr":"d4:af:f7:12:9c:00","state":["REACHABLE"],"confirmed":142},
        {"dst":"10.42.10.200","dev":"Vlan99","lladdr":"00:50:56:be:ef:99","state":["PERMANENT"]},
        {"dst":"10.42.10.9","dev":"Vlan99","state":["FAILED"]}
    ]"#;
    let neighbors = parse_neighbors(json);
    assert_eq!(neighbors.len(), 3);
    assert!(neighbors[0].reachable);
    assert_eq!(neighbors[0].age_secs, Some(142));
    assert!(neighbors[1].permanent);
    assert_eq!(neighbors[2].mac, None);
}

#[test]
fn derives_programming_with_resolve_via_punt() {
    let l3 = l3(&["Vlan99", "Ethernet48"]);
    let routes = vec![
        // Connected: the RIF path owns it.
        route(
            "10.42.10.0/24",
            "kernel",
            vec![KernelHop {
                via: None,
                dev: Some("Vlan99".into()),
            }],
        ),
        // Unresolved next hop: punt.
        route("0.0.0.0/0", "static", vec![hop("10.42.10.1", "Vlan99")]),
        // ECMP, one hop resolved: program the resolved subset.
        route(
            "10.99.0.0/16",
            "static",
            vec![hop("10.9.9.0", "Ethernet48"), hop("10.42.10.7", "Vlan99")],
        ),
        // Management-only: stays kernel.
        route("172.31.0.0/16", "static", vec![hop("192.168.0.1", "eth0")]),
    ];
    let neighbors = vec![
        neighbor("10.9.9.0", "Ethernet48", "a0:36:9f:44:be:09", true),
        // Stale: not programmed.
        neighbor("10.42.10.7", "Vlan99", "00:1c:73:0c:aa:07", false),
        // Off-ASIC: ignored.
        neighbor("192.168.0.1", "eth0", "11:22:33:44:55:66", true),
    ];
    let program = derive_program(&routes, &neighbors, &l3);
    assert_eq!(program.neighbors.entries.len(), 1);
    assert_eq!(
        *wanted(&program, "0.0.0.0/0"),
        WantedRoute {
            cpu: true,
            drop: false,
            hops: vec![]
        }
    );
    assert_eq!(
        *wanted(&program, "10.99.0.0/16"),
        WantedRoute {
            cpu: false,
            drop: false,
            hops: vec![("Ethernet48".into(), "10.9.9.0".into())]
        }
    );
    assert!(!holds(&program, "10.42.10.0/24"));
    assert!(!holds(&program, "172.31.0.0/16"));

    // The neighbor resolving flips the punted default route.
    let neighbors = vec![
        neighbor("10.9.9.0", "Ethernet48", "a0:36:9f:44:be:09", true),
        neighbor("10.42.10.7", "Vlan99", "00:1c:73:0c:aa:07", true),
        neighbor("10.42.10.1", "Vlan99", "d4:af:f7:12:9c:00", true),
    ];
    let flipped = derive_program(&routes, &neighbors, &l3);
    assert_eq!(
        *wanted(&flipped, "0.0.0.0/0"),
        WantedRoute {
            cpu: false,
            drop: false,
            hops: vec![("Vlan99".into(), "10.42.10.1".into())]
        }
    );
    assert_eq!(wanted(&flipped, "10.99.0.0/16").hops.len(), 2);

    // The reconcile diff: the flip re-ensures both routes and adds
    // the new neighbors; nothing is removed.
    let ops = diff_program(&program, &flipped);
    assert!(ops.iter().any(|op| matches!(op,
        FibOp::EnsureRoute { prefix, route } if prefix == "0.0.0.0/0" && !route.cpu)));
    assert!(!ops.iter().any(|op| matches!(op, FibOp::RemoveRoute { .. })));

    // A route leaving the kernel is removed.
    let empty = derive_program(&Vec::new(), &Vec::new(), &TextSet::new());
    let ops = diff_program(&flipped, &empty);
    assert!(ops.iter().any(|op| matches!(op,
        FibOp::RemoveRoute { prefix } if prefix == "10.99.0.0/16")));
    assert!(ops
        .iter()
        .any(|op| matches!(op, FibOp::RemoveNeighbor { .. })));
}

#[test]
fn blackhole_and_v6_program_and_link_local_skipped() {
    let l3 = l3(&["Ethernet48"]);
    let mut blackhole = route("192.0.2.0/24", "static", vec![]);
    blackhole.blackhole = true;
    let routes = vec![
        blackhole,
        route(
            "2001:db8:99::/48",
            "static",
            vec![hop("2001:db8:9::1", "Ethernet48")],
        ),
        route("fe80::/64", "kernel", vec![hop("fe80::1", "Ethernet48")]),
    ];
    let neighbors = vec![neighbor(
        "2001:db8:9::1",
        "Ethernet48",
        "a0:36:9f:44:be:09",
        true,
    )];
    let program = derive_program(&routes, &neighbors, &l3);
    assert_eq!(
        *wanted(&program, "192.0.2.0/24"),
        WantedRoute {
            cpu: false,
            drop: true,
            hops: vec![]
        }
    );
    assert_eq!(
        wanted(&program, "2001:db8:99::/48").hops,
        vec![("Ethernet48".to_string(), "2001:db8:9::1".to_string())]
    );
    assert!(!holds(&program, "fe80::/64"));
}

#[test]
fn neighbor_views_sort_numerically_for_arbitrary_input() {
    // xorshift over random addresses: the view must sort by parsed
    // address (not lexically), both families.
    let mut x: u64 = 0x736f_7274_6172_7021;
    let mut next = move || {
        x ^= x >> 12;
        x ^= x << 25;
        x ^= x >> 27;
        x.wrapping_mul(0x2545_F491_4F6C_DD1D)
    };
    let mut engine = Engine::spawn();
    for _ in 0..50 {
        let neighbors: Vec<KernelNeighbor> = (0..(next() % 8))
            .map(|_| {
                let ip = if next() % 2 == 0 {
                    Ipv4 {
                        bits: next() as u32,
                    }
                    .shown()
                } else {
                    v6_text(next(), next())
                };
                neighbor(&ip, "Vlan99", "00:1c:73:0c:aa:07", true)
            })
            .collect();
        engine.ingest_kernel(Vec::new(), neighbors, 0);
        for v6 in [false, true] {
            let views = engine.neighbors(v6);
            let parsed: Vec<IpAddr> =
                views.iter().map(|v| parse_ip(&v.ip).unwrap()).collect();
            let mut sorted = parsed.clone();
            sorted.sort();
            assert_eq!(parsed, sorted);
            assert!(views.iter().all(|v| v.ip.contains(':') == v6));
        }
    }
}

#[test]
fn snapshot_views_carry_protocol_distance_and_fib_state() {
    let mut engine = Engine::spawn();
    engine.set_l3_interfaces(l3(&["Vlan99", "Ethernet48"]));
    let mut ecmp = route(
        "10.99.0.0/16",
        "static",
        vec![hop("10.9.9.0", "Ethernet48"), hop("10.42.10.7", "Vlan99")],
    );
    ecmp.metric = 250;
    engine.ingest_kernel(
        vec![
            route(
                "10.42.10.0/24",
                "kernel",
                vec![KernelHop {
                    via: None,
                    dev: Some("Vlan99".into()),
                }],
            ),
            ecmp,
            {
                let mut ospf = route("10.50.0.0/24", "ospf", vec![hop("10.42.10.7", "Vlan99")]);
                ospf.metric = 20;
                ospf
            },
        ],
        vec![neighbor(
            "10.9.9.0",
            "Ethernet48",
            "a0:36:9f:44:be:09",
            true,
        )],
        0,
    );
    let views = engine.snapshot(false, 7_000);
    assert_eq!(views.len(), 3);
    assert_eq!(views[0].prefix, "10.42.10.0/24");
    assert_eq!(views[0].protocol, "connected");
    assert_eq!(views[0].fib, "connected");
    assert_eq!(views[0].interface.as_deref(), Some("Vlan99"));
    assert_eq!(views[1].prefix, "10.50.0.0/24");
    assert_eq!((views[1].distance, views[1].metric), (110, 20));
    assert_eq!(views[1].fib, "punt", "no neighbor for 10.42.10.7 yet");
    assert_eq!(views[2].prefix, "10.99.0.0/16");
    assert_eq!(views[2].distance, 250);
    assert_eq!(views[2].fib, "programmed");
    assert!(views[2].hops[0].resolved);
    assert!(!views[2].hops[1].resolved);

    let neighbors = engine.neighbors(false);
    assert_eq!(neighbors.len(), 1);
    assert_eq!(neighbors[0].interface, "Ethernet48");
    assert!(engine.have_kernel());
}

/// Recording every step of a reconcile leaves nothing to reconcile.
#[test]
fn a_recorded_diff_converges() {
    let l3 = l3(&["Vlan99", "Ethernet48"]);
    let routes = vec![
        route("0.0.0.0/0", "static", vec![hop("10.42.10.1", "Vlan99")]),
        route("10.99.0.0/16", "static", vec![hop("10.9.9.0", "Ethernet48")]),
    ];
    let neighbors = vec![neighbor("10.9.9.0", "Ethernet48", "a0:36:9f:44:be:09", true)];
    let goal = derive_program(&routes, &neighbors, &l3);
    let mut current = anchored(
        &vec!["192.0.2.0/24".to_string(), "0.0.0.0/0".to_string()],
        &vec![("Vlan99".to_string(), "10.42.10.9".to_string())],
    );
    let ops = diff_program(&current, &goal);
    // What is gone goes, and what the ASIC was found with is written anew.
    assert!(ops.iter().any(|op| matches!(op,
        FibOp::RemoveRoute { prefix } if prefix == "192.0.2.0/24")));
    assert!(ops.iter().any(|op| matches!(op,
        FibOp::EnsureRoute { prefix, .. } if prefix == "0.0.0.0/0")));
    for op in ops {
        current.record(op);
    }
    assert!(diff_program(&current, &goal).is_empty());
    assert!(diff_program(&goal, &goal).is_empty());
}

/// Junk from the kernel is an empty dump, and an uptime counts from when a
/// route was first seen.
#[test]
fn junk_dumps_and_uptimes() {
    assert!(parse_routes("not json", false).is_empty());
    assert!(parse_neighbors("{}").is_empty());
    let mut engine = Engine::spawn();
    assert!(!engine.have_kernel());
    assert!(engine.set_l3_interfaces(l3(&["Vlan99"])));
    assert!(!engine.set_l3_interfaces(l3(&["Vlan99"])));
    let dump = || vec![route("10.50.0.0/24", "ospf", vec![hop("10.42.10.7", "Vlan99")])];
    engine.ingest_kernel(dump(), Vec::new(), 1_000);
    engine.ingest_kernel(dump(), Vec::new(), 5_000);
    assert_eq!(engine.snapshot(false, 9_000)[0].uptime_secs, 8);
    assert!(holds(&engine.wanted(), "10.50.0.0/24"));
    // A route that leaves and comes back starts over.
    engine.ingest_kernel(Vec::new(), Vec::new(), 10_000);
    engine.ingest_kernel(dump(), Vec::new(), 11_000);
    assert_eq!(engine.snapshot(false, 12_000)[0].uptime_secs, 1);
}

/// Pages follow each other by the last prefix shown.
#[test]
fn pages_resume_after_the_token() {
    let mut engine = Engine::spawn();
    engine.set_l3_interfaces(l3(&["Vlan99"]));
    let dump: Vec<KernelRoute> = (0..5)
        .map(|i| {
            route(
                &format!("10.{i}.0.0/16"),
                "static",
                vec![hop("10.42.10.7", "Vlan99")],
            )
        })
        .collect();
    engine.ingest_kernel(dump, Vec::new(), 0);
    let (page, token) = page_routes(engine.snapshot(false, 0), "", 2);
    assert_eq!(page.len(), 2);
    assert_eq!(token, "10.1.0.0/16");
    let (page, token) = page_routes(engine.snapshot(false, 0), &token, 2);
    assert_eq!(page[0].prefix, "10.2.0.0/16");
    assert_eq!(token, "10.3.0.0/16");
    let (page, token) = page_routes(engine.snapshot(false, 0), &token, 2);
    assert_eq!(page.len(), 1);
    assert!(token.is_empty());
    // Without a page size everything comes at once.
    let (page, token) = page_routes(engine.snapshot(false, 0), "", 0);
    assert_eq!(page.len(), 5);
    assert!(token.is_empty());
}

#[test]
fn flushing_names_one_neighbor_or_all() {
    assert_eq!(
        flush_args("10.42.10.7"),
        vec!["neigh", "flush", "to", "10.42.10.7"]
    );
    assert_eq!(flush_args(""), vec!["neigh", "flush", "all"]);
}
