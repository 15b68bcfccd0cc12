//! Platform manifests: loading and lint.

use hemlock::lint::{lint, LintReport, Severity};
use hemlock::ordmap::OrdMap;
use hemlock::platform::{file_name, is_rooted, join_path, numbers_fit, Platform, PlatformError};
use hemlock::schema::{
    default_cpu_arch, default_interval, default_pwm_max, eight, one, AsicAttach, BusRef, Celsius,
    CurvePoint, FanControl, FanDef, HardwareSection, I2cDevice, I2cMux, I2cRoot, I2cSection,
    KernelSection, Manifest, PlatformSection, PortEntry, PortGroup, PortsSection, Psu,
    QuirksSection, SaiBackendKind, SaiSection, ThermalSection, ThermalSensor, Transceiver,
};

fn group(speed_mbps: u32, lanes_per_port: u32, lanes: Vec<u32>) -> PortGroup {
    PortGroup {
        prefix: "Ethernet".into(),
        name_start: 0,
        index_start: 1,
        speed_mbps,
        lanes_per_port,
        lanes,
        alias_prefix: None,
        autoneg: false,
        media: None,
        breakout: Vec::new(),
        phy_model: None,
        supported_modes: Vec::new(),
        sdk_names: Vec::new(),
    }
}

fn port(name: &str, index: u32, lanes: Vec<u32>) -> PortEntry {
    PortEntry {
        name: name.into(),
        index,
        speed_mbps: 1000,
        lanes,
        alias: None,
        autoneg: false,
        media: None,
        breakout: Vec::new(),
        phy_model: None,
        supported_modes: Vec::new(),
        sdk_name: None,
    }
}

fn minimal_manifest(groups: Vec<PortGroup>, ports: Vec<PortEntry>) -> Manifest {
    Manifest {
        schema_version: 1,
        platform: PlatformSection {
            id: "test-sw".into(),
            onie_machine: "x86_64-test_sw-r0".into(),
            vendor: "Test".into(),
            model: "TSW-1".into(),
            asic_family: "broadcom-xgs".into(),
            asic: "helix4".into(),
            cpu_arch: default_cpu_arch(),
            asic_attach: AsicAttach::default(),
        },
        sai: SaiSection {
            backend: SaiBackendKind::default(),
            package: Some("libsaibcm".into()),
            version_pin: Some("3.7.x-helix4".into()),
            libsai_path: Some("/usr/lib/libsai.so.1".into()),
            shim_path: None,
            abi_major: None,
            config_bcm: "config.bcm".into(),
            extra_files: Vec::new(),
            api_headers: None,
            profile: OrdMap::new(),
        },
        kernel: KernelSection {
            required_modules: Vec::new(),
            module_args: OrdMap::new(),
        },
        ports: PortsSection {
            groups,
            ports,
            uc_queues: eight(),
            mc_queues: eight(),
        },
        hardware: HardwareSection {
            i2c: I2cSection {
                root_adapter: None,
                roots: Vec::new(),
                pre_writes: Vec::new(),
                muxes: Vec::new(),
                devices: Vec::new(),
            },
            thermal: ThermalSection {
                sensors: Vec::new(),
                fans: Vec::new(),
                fan_control: None,
            },
            psus: Vec::new(),
            transceivers: Vec::new(),
            quirks: QuirksSection::default(),
        },
        management: None,
    }
}

fn load(manifest: Manifest) -> Result<Platform, PlatformError> {
    Platform::load("/srv/platforms/test-sw".to_string(), manifest)
}

#[test]
fn expands_port_groups_with_swapped_lanes() {
    let mut g = group(1000, one(), vec![2, 1, 4, 3]);
    g.alias_prefix = Some("etp".into());
    g.autoneg = true;
    let p = load(minimal_manifest(vec![g], Vec::new())).unwrap();
    assert_eq!(p.ports.len(), 4);
    assert_eq!(p.ports[0].name, "Ethernet0");
    assert_eq!(p.ports[0].lanes, vec![2]);
    assert_eq!(p.ports[0].alias.as_deref(), Some("etp1"));
    assert_eq!(p.ports[3].name, "Ethernet3");
    assert_eq!(p.ports[3].index, 4);
    assert_eq!(p.ports[3].lanes, vec![3]);
}

#[test]
fn multi_lane_groups_chunk_lanes() {
    let p = load(minimal_manifest(
        vec![group(40000, 4, vec![1, 2, 3, 4, 5, 6, 7, 8])],
        Vec::new(),
    ))
    .unwrap();
    assert_eq!(p.ports.len(), 2);
    assert_eq!(p.ports[0].lanes, vec![1, 2, 3, 4]);
    assert_eq!(p.ports[1].lanes, vec![5, 6, 7, 8]);
}

#[test]
fn rejects_wrong_schema_version() {
    let mut manifest = minimal_manifest(Vec::new(), vec![port("Ethernet0", 1, vec![1])]);
    manifest.schema_version = 99;
    assert!(matches!(
        load(manifest),
        Err(PlatformError::SchemaVersion { found: 99, .. })
    ));
}

#[test]
fn rejects_ragged_lane_list() {
    let err = load(minimal_manifest(
        vec![group(40000, 4, vec![1, 2, 3])],
        Vec::new(),
    ))
    .err()
    .unwrap();
    assert!(matches!(err, PlatformError::Ports(_)));
}

#[test]
fn rejects_empty_port_table() {
    let err = load(minimal_manifest(Vec::new(), Vec::new())).err().unwrap();
    assert!(matches!(err, PlatformError::Ports(_)));
}

/// Every error says what went wrong.
#[test]
fn platform_errors_say_why() {
    let e = PlatformError::SchemaVersion {
        found: 99,
        supported: 1,
    };
    assert_eq!(e.message(), "unsupported schema_version 99 (supported: 1)");
    let e = PlatformError::Read {
        path: "a/platform.toml".into(),
        source: "gone".into(),
    };
    assert_eq!(e.message(), "cannot read a/platform.toml: gone");
    let e = PlatformError::Parse {
        path: "a/platform.toml".into(),
        source: "bad".into(),
    };
    assert_eq!(e.message(), "cannot parse a/platform.toml: bad");
    // A name is shown in quotes, with what needs it escaped.
    let e = PlatformError::UnknownQuirks("a\"b".into());
    assert_eq!(e.message(), "unknown quirks driver \"a\\\"b\"");
    let e = PlatformError::NotFound {
        id: "x".into(),
        root: "/srv".into(),
    };
    assert_eq!(e.message(), "platform \"x\" not found under /srv");
    let e = PlatformError::Ports("no ports".into());
    assert_eq!(e.message(), "invalid port table: no ports");
}

/// Vendor files sit next to the manifest, unless their path is absolute.
#[test]
fn vendor_paths_join_the_platform_directory() {
    let mut manifest = minimal_manifest(Vec::new(), vec![port("Ethernet0", 1, vec![1])]);
    manifest.sai.extra_files = vec!["led.hex".into(), "/etc/custom.hex".into()];
    let p = load(manifest).unwrap();
    assert_eq!(p.config_bcm_path(), "/srv/platforms/test-sw/config.bcm");
    assert_eq!(
        p.extra_file_paths(),
        vec!["/srv/platforms/test-sw/led.hex", "/etc/custom.hex"]
    );
    assert_eq!(p.port("Ethernet0").unwrap().index, 1);
    assert!(p.port("Ethernet1").is_none());
    assert!(p.quirks().is_ok());
    assert_eq!(file_name("/srv/platforms/test-sw").as_deref(), Some("test-sw"));
    assert_eq!(file_name("/"), None);
    assert!(is_rooted("/a") && !is_rooted("a"));
    assert_eq!(join_path("a/", "b"), "a/b");
}

/// A platform is found by its path or by its id.
#[test]
fn platforms_are_found_by_path_or_id() {
    assert_eq!(
        Platform::find("/srv/platforms", "./here", true, false).unwrap(),
        "./here"
    );
    assert_eq!(
        Platform::find("/srv/platforms", "test-sw", false, true).unwrap(),
        "/srv/platforms/test-sw"
    );
    let err = Platform::find("/srv/platforms", "ghost", false, false)
        .err()
        .unwrap();
    assert_eq!(
        err.message(),
        "platform \"ghost\" not found under /srv/platforms"
    );
}

// ------------------------------------------------------------------- lint

fn base() -> Manifest {
    minimal_manifest(vec![group(1000, 1, vec![1, 2])], Vec::new())
}

/// Lint a manifest in a fresh checkout: no vendor file is there.
fn report_of(manifest: Manifest) -> LintReport {
    lint(&load(manifest).ok().unwrap(), &Vec::new())
}

/// Every message a failing lint produced, for assertions that care
/// about *why* it failed rather than just that it did.
fn messages(report: &LintReport) -> String {
    report
        .diagnostics
        .iter()
        .map(|d| d.message.as_str())
        .collect::<Vec<_>>()
        .join("\n")
}

fn celsius(tenths: i64, shown: &str) -> Celsius {
    Celsius {
        order: Some(tenths),
        shown: shown.into(),
    }
}

fn fan(name: &str, hwmon: &str) -> FanDef {
    FanDef {
        name: name.into(),
        hwmon: hwmon.into(),
        tach: "fan1".into(),
        pwm: "pwm1".into(),
        rpm_attr: None,
        pwm_attr: None,
        pwm_max: default_pwm_max(),
        presence_attr: None,
        presence_active_low: false,
        led_attr: None,
    }
}

#[test]
fn clean_manifest_passes_with_blob_warning() {
    let report = report_of(base());
    assert!(report.passed(), "{:?}", report.diagnostics);
    // config.bcm absent from a fresh checkout -> warning, never error.
    assert!(report
        .diagnostics
        .iter()
        .any(|d| d.severity == Severity::Warning && d.message.contains("config.bcm")));
}

#[test]
fn duplicate_lanes_fail() {
    let mut manifest = base();
    manifest.ports.ports = vec![port("Ethernet9", 9, vec![2])];
    let report = report_of(manifest);
    assert!(!report.passed());
    assert!(report
        .diagnostics
        .iter()
        .any(|d| d.message.contains("lane 2")));
}

#[test]
fn fan_curve_must_reference_declared_sensor() {
    let mut manifest = base();
    manifest.hardware.thermal.fan_control = Some(FanControl {
        sensor: "ghost".into(),
        interval_secs: default_interval(),
        curve: vec![CurvePoint {
            temp_c: celsius(300, "30"),
            pwm_percent: 40,
        }],
    });
    let report = report_of(manifest);
    assert!(!report.passed());
}

#[test]
fn unknown_quirks_driver_fails() {
    let mut manifest = base();
    manifest.hardware.quirks.driver = "nonexistent".into();
    assert!(!report_of(manifest).passed());
}

#[test]
fn bad_onie_machine_fails() {
    let mut manifest = base();
    manifest.platform.onie_machine = "not a machine string".into();
    assert!(!report_of(manifest).passed());
}

/// The defaults keep an existing manifest meaning exactly what it did
/// before the backend/arch fields existed.
#[test]
fn defaults_are_the_pre_existing_behavior() {
    let p = load(base()).ok().unwrap();
    assert_eq!(p.manifest.sai.backend, SaiBackendKind::Sai);
    assert_eq!(p.manifest.platform.cpu_arch, "amd64");
    assert_eq!(p.manifest.platform.asic_attach, AsicAttach::Pcie);
    assert!(lint(&p, &Vec::new()).passed());
}

#[test]
fn cpu_arch_must_agree_with_the_onie_machine_string() {
    // armhf on an x86_64- machine string: the mismatch that would
    // ship an ARM image for an x86 box.
    let mut manifest = base();
    manifest.platform.cpu_arch = "armhf".into();
    let report = report_of(manifest);
    assert!(!report.passed());
    assert!(
        messages(&report).contains("cpu_arch"),
        "{}",
        messages(&report)
    );

    // ...and the matching pair passes.
    let mut ok = base();
    ok.platform.onie_machine = "arm-test_sw-r0".into();
    ok.platform.cpu_arch = "armhf".into();
    let report = report_of(ok);
    assert!(report.passed(), "{}", messages(&report));
}

#[test]
fn unknown_cpu_arch_fails() {
    let mut manifest = base();
    manifest.platform.cpu_arch = "sparc64".into();
    assert!(!report_of(manifest).passed());
}

/// An openbcm manifest, as the AS4610's will be shaped.
fn openbcm_base() -> Manifest {
    let mut manifest = base();
    manifest.platform.onie_machine = "arm-test_sw-r0".into();
    manifest.platform.cpu_arch = "armhf".into();
    manifest.platform.asic_attach = AsicAttach::Soc;
    manifest.sai.package = None;
    manifest.sai.version_pin = None;
    manifest.sai.libsai_path = None;
    manifest.sai.backend = SaiBackendKind::Openbcm;
    manifest.sai.shim_path = Some("/usr/lib/libhemlockbcm.so.1".into());
    manifest.sai.abi_major = Some(1);
    manifest
}

#[test]
fn openbcm_manifest_passes() {
    let p = load(openbcm_base()).ok().unwrap();
    assert_eq!(p.manifest.sai.backend, SaiBackendKind::Openbcm);
    let report = lint(&p, &Vec::new());
    assert!(report.passed(), "{}", messages(&report));
}

#[test]
fn openbcm_requires_its_own_fields() {
    let mut manifest = openbcm_base();
    manifest.sai.abi_major = None;
    let report = report_of(manifest);
    assert!(!report.passed());
    assert!(messages(&report).contains("abi_major"));

    let mut manifest = openbcm_base();
    manifest.sai.shim_path = None;
    assert!(messages(&report_of(manifest)).contains("shim_path"));
}

/// The two backends' fields do not mix: carrying a SAI pin on an
/// openbcm platform would imply a vendor blob that does not exist.
#[test]
fn backend_fields_do_not_mix() {
    let mut manifest = openbcm_base();
    manifest.sai.version_pin = Some("8.4.50.0".into());
    let report = report_of(manifest);
    assert!(!report.passed());
    assert!(messages(&report).contains("version_pin"));

    let mut manifest = base();
    manifest.sai.shim_path = Some("/usr/lib/libhemlockbcm.so.1".into());
    let report = report_of(manifest);
    assert!(!report.passed());
    assert!(messages(&report).contains("shim_path"));
}

/// An on-die CMIC has no PCI device, so a pcie probe would let
/// --auto-mock mock a live switch.
#[test]
fn openbcm_on_pcie_attach_warns() {
    let mut manifest = openbcm_base();
    manifest.platform.asic_attach = AsicAttach::default();
    let report = report_of(manifest);
    assert!(report.passed(), "a warning, not an error");
    assert!(
        messages(&report).contains("auto-mock"),
        "{}",
        messages(&report)
    );
}

fn device(bus: &str) -> I2cDevice {
    I2cDevice {
        driver: "as4610_cpld".into(),
        bus: BusRef::Named(bus.into()),
        address: 0x30,
        purpose: "cpld".into(),
    }
}

fn root(name: &str, adapter: &str) -> I2cRoot {
    I2cRoot {
        name: name.into(),
        adapter: adapter.into(),
        instance: 0,
    }
}

#[test]
fn named_i2c_roots_resolve_or_fail() {
    let mut manifest = base();
    manifest.hardware.i2c.roots = vec![root("cpld", "Broadcom iProc SMBus adapter")];
    manifest.hardware.i2c.devices = vec![device("cpld")];
    assert!(report_of(manifest).passed());

    // A device naming a root nobody declared.
    let mut manifest = base();
    manifest.hardware.i2c.devices = vec![device("ghost")];
    let report = report_of(manifest);
    assert!(!report.passed());
    assert!(messages(&report).contains("ghost"));
}

#[test]
fn duplicate_root_names_fail() {
    let mut manifest = base();
    manifest.hardware.i2c.roots = vec![root("cpld", "A"), root("cpld", "B")];
    let report = report_of(manifest);
    assert!(!report.passed());
    assert!(messages(&report).contains("duplicate i2c root"));
}

/// `root_adapter` is shorthand for a root named `root`, so declaring
/// both is a collision, not a merge.
#[test]
fn root_adapter_and_a_root_named_root_collide() {
    let mut manifest = base();
    manifest.hardware.i2c.root_adapter = Some("SMBus iSMT adapter".into());
    manifest.hardware.i2c.roots = vec![root("root", "Other adapter")];
    let report = report_of(manifest);
    assert!(!report.passed());
    assert!(messages(&report).contains("root_adapter already declares"));
}

#[test]
fn sdk_names_must_cover_every_port_in_the_group() {
    let mut short = base();
    short.ports.groups[0].sdk_names = vec!["ge0".into()];
    let report = report_of(short);
    assert!(!report.passed());
    assert!(messages(&report).contains("sdk_names"));

    let mut ok = base();
    ok.ports.groups[0].sdk_names = vec!["ge0".into(), "ge1".into()];
    let p = load(ok).ok().unwrap();
    assert!(lint(&p, &Vec::new()).passed());
    assert_eq!(p.ports[0].sdk_name.as_deref(), Some("ge0"));
    assert_eq!(p.ports[1].sdk_name.as_deref(), Some("ge1"));
}

#[test]
fn duplicate_sdk_names_fail() {
    let mut dup = base();
    dup.ports.groups[0].sdk_names = vec!["ge0".into(), "ge0".into()];
    let report = report_of(dup);
    assert!(!report.passed());
    assert!(messages(&report).contains("sdk_name"));
}

#[test]
fn openbcm_without_sdk_names_warns() {
    let report = report_of(openbcm_base());
    assert!(report.passed());
    assert!(
        messages(&report).contains("sdk_names"),
        "{}",
        messages(&report)
    );
}

#[test]
fn fan_pwm_max_must_be_nonzero() {
    let mut manifest = base();
    let mut f = fan("FAN-1", "23-004d");
    f.pwm_max = 0;
    manifest.hardware.thermal.fans = vec![f];
    let report = report_of(manifest);
    assert!(!report.passed());
    assert!(messages(&report).contains("pwm_max"));
}

#[test]
fn fan_attribute_overrides_default_to_hwmon_conventions() {
    let mut manifest = base();
    let mut f = fan("FAN-1", "0-0030");
    f.rpm_attr = Some("fan1_speed_rpm".into());
    f.pwm_attr = Some("fan_duty_cycle_percentage".into());
    f.pwm_max = 100;
    manifest.hardware.thermal.fans = vec![f];
    let p = load(manifest).ok().unwrap();
    assert!(lint(&p, &Vec::new()).passed());
    let f = &p.manifest.hardware.thermal.fans[0];
    assert_eq!(f.rpm_attr.as_deref(), Some("fan1_speed_rpm"));
    assert_eq!(f.pwm_max, 100);

    // Absent, the standard hwmon convention still applies.
    let mut manifest = base();
    manifest.hardware.thermal.fans = vec![fan("FAN-1", "1-0020")];
    let plain = load(manifest).ok().unwrap();
    let f = &plain.manifest.hardware.thermal.fans[0];
    assert!(f.rpm_attr.is_none() && f.pwm_attr.is_none());
    assert_eq!(f.pwm_max, 255);
}

/// A vendor file that is there is not warned about.
#[test]
fn present_vendor_files_do_not_warn() {
    let p = load(base()).ok().unwrap();
    let report = lint(&p, &vec![true]);
    assert!(report.passed());
    assert!(!messages(&report).contains("config.bcm"));
}

/// A warning threshold at or above the critical one fails, and so do two muxes
/// that fan out to one bus.
#[test]
fn thresholds_and_buses_are_checked() {
    let mut manifest = base();
    manifest.hardware.thermal.sensors = vec![ThermalSensor {
        name: "cpu".into(),
        hwmon: "11-001a".into(),
        input: "temp1".into(),
        warn_c: celsius(900, "90"),
        crit_c: celsius(800, "80"),
    }];
    let report = report_of(manifest);
    assert!(!report.passed());
    assert!(messages(&report).contains("cpu"));

    let mux = |name: &str, base: u32| I2cMux {
        name: name.into(),
        driver: "pca9548".into(),
        parent_bus: BusRef::Named("root".into()),
        address: 0x70,
        child_bus_base: base,
        channels: 8,
    };
    let mut manifest = base();
    manifest.hardware.i2c.root_adapter = Some("SMBus iSMT adapter".into());
    manifest.hardware.i2c.muxes = vec![mux("m1", 2), mux("m2", 9)];
    let report = report_of(manifest);
    assert!(!report.passed());
    assert!(messages(&report).contains("9"));
}

/// A PSU and a transceiver must sit on buses and ports that exist.
#[test]
fn psus_and_transceivers_are_checked() {
    let mut manifest = base();
    manifest.hardware.psus = vec![Psu {
        name: "PSU-1".into(),
        bus: BusRef::Named("ghost".into()),
        address: 0x58,
        driver: "pmbus".into(),
        eeprom_address: None,
        presence_attr: None,
        status_attr: None,
    }];
    assert!(!report_of(manifest).passed());

    let mut manifest = base();
    manifest.hardware.transceivers = vec![Transceiver {
        port: "Ethernet77".into(),
        bus: BusRef::Number(3),
        driver: "optoe2".into(),
    }];
    let report = report_of(manifest);
    assert!(!report.passed());
    assert!(messages(&report).contains("Ethernet77"));
    assert!(report.diagnostics[0].shown().contains(':'));
}

/// Absent vendor files add one warning for each relative path, and nothing
/// else.
#[test]
fn absent_vendor_files_only_warn() {
    let mut manifest = base();
    manifest.sai.extra_files = vec!["led.hex".into(), "/etc/custom.hex".into()];
    let p = load(manifest).ok().unwrap();
    let with = lint(&p, &vec![true, true, true]);
    let without = lint(&p, &Vec::new());
    assert_eq!(with.passed(), without.passed());
    let shown = |report: &LintReport| -> Vec<String> {
        report.diagnostics.iter().map(|d| d.shown()).collect()
    };
    let added: Vec<String> = shown(&without)
        .into_iter()
        .filter(|line| !shown(&with).contains(line))
        .collect();
    assert_eq!(shown(&without).len(), shown(&with).len() + 2);
    assert_eq!(added.len(), 2);
    assert!(added[0].starts_with("warning: vendor data file config.bcm is absent"));
    assert!(added[1].starts_with("warning: vendor data file led.hex is absent"));
}

/// Port numbers must fit in 32 bits, in the groups that are reached.
#[test]
fn port_numbers_fit_or_do_not() {
    let mut wide = group(1000, 4, vec![1, 2, 3, 4]);
    wide.index_start = u32::MAX;
    wide.name_start = u32::MAX;
    assert!(numbers_fit(&vec![wide]));
    let mut two = group(1000, 2, vec![1, 2, 3, 4]);
    two.index_start = u32::MAX;
    assert!(!numbers_fit(&vec![group(1000, 1, vec![1]), two]));
    let mut behind = group(1000, 1, vec![1, 2]);
    behind.name_start = u32::MAX;
    assert!(numbers_fit(&vec![group(1000, 0, vec![1]), behind]));
    assert!(numbers_fit(&Vec::new()));
}
