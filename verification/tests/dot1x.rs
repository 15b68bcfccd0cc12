//! 802.1X: port authorization and the hostapd configuration.

use hemlock::dot1x::{
    hostapd_files, parse_ctrl_event, read_ctrl_event, render_hostapd_conf, Config, CtrlEvent,
    Directive, Engine, Radius,
};
use hemlock::ordmap::TextSet;

fn names(ports: &[&str]) -> TextSet {
    TextSet::of_names(&ports.iter().map(|p| p.to_string()).collect())
}

fn config(ports: &[&str]) -> Config {
    Config {
        radius: vec![Radius {
            ip: "10.42.0.5".into(),
            key: "s3cret".into(),
            port: 1812,
            timeout: 5,
            retransmit: 3,
        }],
        reauth_interval: 3600,
        ports: names(ports),
    }
}

/// The scripted hostapd-ctrl flow: enable -> unauthorized, EAP
/// success -> authorized, logoff / reauth-failure -> back to
/// unauthorized, disable -> re-authorized. Every dataplane flip is
/// what syncd would receive.
#[test]
fn auth_flow_drives_port_flips() {
    let mut engine = Engine::spawn();
    let changes = engine.set_config(config(&["Ethernet10"]));
    assert_eq!(changes.flips, vec![("Ethernet10".to_string(), false)]);
    assert!(matches!(changes.directive, Some(Directive::Reconfigure(_))));

    let flip = engine.handle_event(
        CtrlEvent::AuthSuccess {
            port: "Ethernet10".into(),
            mac: "00:1c:73:0c:aa:10".into(),
        },
        1_000,
    );
    assert_eq!(flip, Some(("Ethernet10".into(), true)));
    let snapshot = engine.snapshot();
    assert!(snapshot.ports[0].authorized);
    assert_eq!(
        snapshot.ports[0].supplicant.as_deref(),
        Some("00:1c:73:0c:aa:10")
    );
    assert_eq!(snapshot.ports[0].last_auth, Some(1_000));

    // Logoff drops authorization without counting a failure.
    let flip = engine.handle_event(
        CtrlEvent::Logoff {
            port: "Ethernet10".into(),
            mac: "00:1c:73:0c:aa:10".into(),
        },
        2_000,
    );
    assert_eq!(flip, Some(("Ethernet10".into(), false)));
    assert_eq!(engine.snapshot().ports[0].failures, 0);

    // A reauth failure counts and keeps the port unauthorized.
    let flip = engine.handle_event(
        CtrlEvent::AuthFailure {
            port: "Ethernet10".into(),
            mac: "00:1c:73:0c:aa:10".into(),
        },
        3_000,
    );
    // No flip (already unauthorized).
    assert_eq!(flip, None);
    assert_eq!(engine.snapshot().ports[0].failures, 1);

    // Forced reauth is a directive for hostapd, not a state change.
    match engine.reauth("Ethernet10") {
        Some(Directive::Reauth(port)) => assert_eq!(port, "Ethernet10"),
        other => panic!("unexpected directive {other:?}"),
    }
    assert!(engine.reauth("Ethernet11").is_none());

    // Disabling re-authorizes (enforcement entries removed).
    let changes = engine.set_config(config(&[]));
    assert_eq!(changes.flips, vec![("Ethernet10".to_string(), true)]);
    assert!(engine.snapshot().ports.is_empty());
}

#[test]
fn hostapd_conf_renders_wired_authenticator() {
    let conf = render_hostapd_conf(
        "Ethernet10",
        &config(&["Ethernet10"]),
        "/run/hemlock/hostapd/ctrl",
    );
    assert!(conf.contains("interface=Ethernet10\n"));
    assert!(conf.contains("driver=wired\n"));
    assert!(conf.contains("ieee8021x=1\n"));
    assert!(conf.contains("eap_reauth_period=3600\n"));
    assert!(conf.contains("auth_server_addr=10.42.0.5\n"));
    assert!(conf.contains("auth_server_shared_secret=s3cret\n"));
}

#[test]
fn ctrl_lines_parse() {
    assert_eq!(
        parse_ctrl_event("Ethernet10", "<3>AP-STA-CONNECTED 00:1c:73:0c:aa:10"),
        Some(CtrlEvent::AuthSuccess {
            port: "Ethernet10".into(),
            mac: "00:1c:73:0c:aa:10".into()
        })
    );
    assert_eq!(
        parse_ctrl_event("Ethernet10", "<3>CTRL-EVENT-EAP-FAILURE 00:1c:73:0c:aa:10"),
        Some(CtrlEvent::AuthFailure {
            port: "Ethernet10".into(),
            mac: "00:1c:73:0c:aa:10".into()
        })
    );
    assert_eq!(
        parse_ctrl_event("Ethernet10", "<3>AP-STA-DISCONNECTED 00:1c:73:0c:aa:10"),
        Some(CtrlEvent::Logoff {
            port: "Ethernet10".into(),
            mac: "00:1c:73:0c:aa:10".into()
        })
    );
    assert_eq!(
        parse_ctrl_event("Ethernet10", "<3>CTRL-EVENT-CONNECTED"),
        None
    );
}

/// An event on a port that enforces nothing changes nothing.
#[test]
fn events_on_unknown_ports_are_dropped() {
    let mut engine = Engine::spawn();
    engine.set_config(config(&["Ethernet10"]));
    let flip = engine.handle_event(
        CtrlEvent::AuthSuccess {
            port: "Ethernet11".into(),
            mac: "00:1c:73:0c:aa:10".into(),
        },
        0,
    );
    assert_eq!(flip, None);
    let snapshot = engine.snapshot();
    assert_eq!(snapshot.ports.len(), 1);
    assert!(!snapshot.ports[0].authorized);
    assert_eq!(snapshot.radius[0].key, "s3cret");
    assert_eq!(snapshot.reauth_interval, 3600);
}

/// hostapd runs only where there is a port to guard and a server to ask.
#[test]
fn hostapd_needs_ports_and_servers() {
    let files = hostapd_files(&config(&["Ethernet2", "Ethernet10"]), "/run/ctrl").unwrap();
    assert_eq!(files.len(), 2);
    assert_eq!(files[0].port, "Ethernet10");
    assert_eq!(
        files[0].text,
        render_hostapd_conf("Ethernet10", &config(&["Ethernet10"]), "/run/ctrl")
    );
    assert!(hostapd_files(&config(&[]), "/run/ctrl").is_none());
    let mut bare = config(&["Ethernet10"]);
    bare.radius = Vec::new();
    assert!(hostapd_files(&bare, "/run/ctrl").is_none());
}

/// Only a failure on a port whose count is full finds no room.
#[test]
fn only_a_full_failure_count_has_no_room() {
    let mut engine = Engine::spawn();
    engine.set_config(config(&["Ethernet1", "Ethernet2"]));
    let failure = |port: &str| CtrlEvent::AuthFailure {
        port: port.into(),
        mac: String::new(),
    };
    engine.ports.entries[0].1.failures = u32::MAX;
    assert!(!engine.has_room(&failure("Ethernet1")));
    assert!(engine.has_room(&failure("Ethernet2")));
    assert!(engine.has_room(&failure("Ethernet9")));
    assert!(engine.has_room(&CtrlEvent::Logoff {
        port: "Ethernet1".into(),
        mac: String::new(),
    }));
}

/// A datagram is read as text, whatever its bytes are.
#[test]
fn control_datagrams_are_read() {
    assert_eq!(
        read_ctrl_event("Ethernet10", b"<3>AP-STA-CONNECTED 00:1c:73:0c:aa:10"),
        parse_ctrl_event("Ethernet10", "<3>AP-STA-CONNECTED 00:1c:73:0c:aa:10")
    );
    assert_eq!(
        read_ctrl_event("Ethernet10", b"AP-STA-DISCONNECTED \xff"),
        parse_ctrl_event("Ethernet10", "AP-STA-DISCONNECTED \u{fffd}")
    );
    assert_eq!(read_ctrl_event("Ethernet10", b"\xff"), None);
}

/// An engine starts with nothing configured.
#[test]
fn nothing_is_configured_at_first() {
    let engine = Engine::spawn();
    assert!(engine.config.radius.is_empty());
    assert!(engine.config.ports.entries.is_empty());
    assert_eq!(engine.config.reauth_interval, 0);
}
