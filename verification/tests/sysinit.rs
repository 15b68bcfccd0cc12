//! Board bring-up: the i2c topology, the base MAC and the quirks drivers.

use std::collections::BTreeMap;
use std::collections::BTreeSet;

use hemlock::ordmap::OrdMap;
use hemlock::quirks::{
    by_name, deassert_phy_reset, is_cmic, known_names, led_writes, next_phy_step, Hook, PhyAction,
    PhyEvent, PlatformQuirks, QuirkError, AS4610_CPLD_ADDR, AS4610_CPLD_ROOT,
    AS4610_PHY_RESET_DEASSERT,
};
use hemlock::schema::{
    default_cpu_arch, eight, AsicAttach, BusRef, HardwareSection, I2cDevice, I2cMux, I2cSection,
    I2cWrite, KernelSection, ManagementSection, Manifest, PlatformSection, PortsSection, Psu,
    QuirksSection, SaiBackendKind, SaiSection, ThermalSection,
};
use hemlock::sysinit::{
    asic_present, bde_dev_nodes, client_name, hwmon_device_dir, module_commands, module_outcome,
    mux_child_buses, new_device_text, parse_i2c_byte_for_test, parse_mac_text,
    parse_onie_base_mac, raw_write_args, raw_write_record, read_reg_file, read_reg_output, reg_file,
    reg_not_started, reg_read_args, reg_refused, reg_write_args, reg_write_record, usable_mac,
    Action, BusMap, Entry, Event, I2cReport, Link, Sysfs, SysinitError,
};

/// An i2c device directory in memory: adapters, devices that are there, and
/// what was written.
struct Fake {
    adapters: BTreeMap<u32, String>,
    present: BTreeSet<String>,
    links: BTreeMap<String, Vec<(u32, u32)>>,
    new_device: BTreeMap<u32, String>,
    raw_writes: BTreeMap<u32, String>,
    registers: BTreeMap<String, String>,
}

fn fake_sysfs(adapters: &[(u32, &str)]) -> Fake {
    Fake {
        adapters: adapters
            .iter()
            .map(|(bus, name)| (*bus, format!("{name}\n")))
            .collect(),
        present: BTreeSet::new(),
        links: BTreeMap::new(),
        new_device: BTreeMap::new(),
        raw_writes: BTreeMap::new(),
        registers: BTreeMap::new(),
    }
}

impl Fake {
    fn sysfs(&self) -> Sysfs {
        Sysfs::at("/tmp/board".to_string())
    }

    fn entries(&self) -> Vec<Entry> {
        let mut out: Vec<Entry> = self
            .adapters
            .iter()
            .map(|(bus, name)| Entry {
                name: format!("i2c-{bus}"),
                adapter: Some(name.clone()),
                eeprom: None,
            })
            .collect();
        for name in &self.present {
            out.push(Entry {
                name: name.clone(),
                adapter: None,
                eeprom: None,
            });
        }
        out
    }

    /// Record a mux's channel links the way `i2c-mux.c` does, so
    /// `mux_child_buses` can read them back.
    fn mux_channels(&mut self, parent_bus: u32, address: u32, channels: &[(u32, u32)]) {
        let name = format!("{parent_bus}-{address:04x}");
        self.present.insert(name.clone());
        self.links.insert(name, channels.to_vec());
    }

    fn perform(&mut self, i2c: &I2cSection, action: &Action) -> Event {
        match action {
            Action::Write { bus, index } => {
                if !self.adapters.contains_key(bus) {
                    return Event::Refused("No such file or directory".into());
                }
                self.raw_writes
                    .entry(*bus)
                    .or_default()
                    .push_str(&raw_write_record(&i2c.pre_writes[*index]));
                Event::Done
            }
            Action::Probe { bus, address } => {
                Event::Present(self.present.contains(&client_name(*bus, *address)))
            }
            Action::Create {
                bus,
                driver,
                address,
            } => {
                if !self.adapters.contains_key(bus) {
                    return Event::Refused("No such file or directory".into());
                }
                self.new_device
                    .insert(*bus, new_device_text(driver, *address));
                Event::Done
            }
            Action::Links { bus, address } => {
                let links = match self.links.get(&client_name(*bus, *address)) {
                    Some(channels) => channels
                        .iter()
                        .map(|(channel, bus)| Link {
                            name: format!("channel-{channel}"),
                            target: Some(format!("../../../i2c-{bus}")),
                        })
                        .collect(),
                    None => Vec::new(),
                };
                Event::Links(links)
            }
            Action::Finished => panic!("nothing left to do"),
        }
    }

    fn instantiate_i2c(&mut self, i2c: &I2cSection) -> Result<I2cReport, SysinitError> {
        let (mut bringup, mut action) = self.sysfs().instantiate_i2c(i2c, &self.entries())?;
        loop {
            if matches!(action, Action::Finished) {
                return Ok(bringup.report);
            }
            let event = self.perform(i2c, &action);
            assert!(bringup.expects(&event));
            assert!(bringup.numbers(i2c, &event));
            action = bringup.next(i2c, &event)?;
        }
    }
}

fn e1031_like_topology() -> I2cSection {
    I2cSection {
        root_adapter: Some("SMBus iSMT adapter".into()),
        roots: Vec::new(),
        pre_writes: vec![I2cWrite {
            bus: BusRef::Named("root".into()),
            address: 0x73,
            data: vec![0x10, 0x00, 0x01],
            purpose: "wake cpu-extender".into(),
        }],
        muxes: vec![I2cMux {
            name: "cpu-extender".into(),
            driver: "pca9548".into(),
            parent_bus: BusRef::Named("root".into()),
            address: 0x73,
            child_bus_base: 2,
            channels: 8,
        }],
        devices: vec![I2cDevice {
            driver: "24lc64t".into(),
            bus: BusRef::Number(2),
            address: 0x50,
            purpose: "syseeprom".into(),
        }],
    }
}

#[test]
fn finds_root_adapter_by_name_prefix() {
    let fake = fake_sysfs(&[
        (0, "Synopsys DesignWare adapter"),
        (1, "SMBus iSMT adapter at dfff0000"),
    ]);
    let sysfs = fake.sysfs();
    assert_eq!(
        sysfs
            .find_root_adapter(&fake.entries(), "SMBus iSMT adapter")
            .unwrap(),
        1
    );
    assert!(matches!(
        sysfs.find_root_adapter(&fake.entries(), "Nonexistent"),
        Err(SysinitError::RootAdapterNotFound(_))
    ));
}

#[test]
fn instantiates_topology_in_order() {
    let mut fake = fake_sysfs(&[(1, "SMBus iSMT adapter at dfff0000"), (2, "i2c-mux ch0")]);
    let report = fake.instantiate_i2c(&e1031_like_topology()).unwrap();
    assert_eq!(report.root_bus, Some(1));
    assert_eq!(report.created.len(), 2);

    // The mux landed on the root adapter's new_device...
    assert_eq!(fake.new_device[&1], "pca9548 0x73\n");
    // ...the device on bus 2...
    assert_eq!(fake.new_device[&2], "24lc64t 0x50\n");
    // ...and the pre-write was recorded against the root bus.
    assert_eq!(fake.raw_writes[&1], "0x73 0x10 0x00 0x01\n");
}

#[test]
fn bus_map_resolves_and_passes_unknowns_through() {
    let mut map = BusMap::default();
    map.insert(2, 7);
    assert_eq!(map.resolve(2), 7);
    assert_eq!(map.resolve(3), 3, "unknown declared bus is identity");
    assert_eq!(map.resolve_hwmon("2-004d"), "7-004d");
    assert_eq!(map.resolve_hwmon("3-001a"), "3-001a");
    // Not a <bus>-<addr> identity: untouched rather than mangled.
    assert_eq!(map.resolve_hwmon("hwmon0"), "hwmon0");
    assert_eq!(map.resolve_hwmon("e1031.smc-fan"), "e1031.smc-fan");
    // A platform device has no bus number to translate, and its dir
    // is not under /sys/bus/i2c.
    assert_eq!(
        map.resolve_hwmon("platform:as4610_fan"),
        "platform:as4610_fan"
    );
    assert_eq!(
        hwmon_device_dir("platform:as4610_fan"),
        "/sys/devices/platform/as4610_fan"
    );
    assert_eq!(hwmon_device_dir("7-004d"), "/sys/bus/i2c/devices/7-004d");
    assert_eq!(map.divergences(), vec![(2, 7)]);
}

/// A mux that exposes no `channel-N` links leaves every bus number
/// at its declared value, and the first device on that mux then aims
/// at a bus the kernel never created: the pass fails naming the bus it
/// could not find, rather than quietly reporting a switch with no sensors.
#[test]
fn a_mux_without_channel_links_cannot_place_its_devices() {
    let mut fake = fake_sysfs(&[(1, "SMBus iSMT adapter"), (10, "ch0")]);
    // No channel links: the mux dir has no channel-N.
    fake.present.insert("1-0073".into());
    let err = fake
        .instantiate_i2c(&e1031_like_topology())
        .expect_err("declared bus 2 does not exist; the kernel used 10");
    assert!(
        matches!(err, SysinitError::I2c { bus: 2, .. }),
        "error should name the declared bus it could not find: {}",
        err.message()
    );
}

#[test]
fn matching_kernel_numbering_is_a_no_op() {
    let mut fake = fake_sysfs(&[(1, "SMBus iSMT adapter"), (2, "ch0")]);
    fake.mux_channels(1, 0x73, &[(0, 2)]);
    let report = fake.instantiate_i2c(&e1031_like_topology()).unwrap();
    assert_eq!(report.buses.resolve(2), 2);
    assert!(
        report.buses.divergences().is_empty(),
        "declared numbering matches the kernel's: {:?}",
        report.buses.divergences()
    );
    // The syseeprom still landed on declared bus 2.
    assert_eq!(fake.new_device[&2], "24lc64t 0x50\n");
}

/// The kernel put the mux's channels somewhere else: devices follow
/// the actual buses, and the manifest's `hwmon` identities translate.
#[test]
fn devices_follow_actual_child_buses() {
    let mut fake = fake_sysfs(&[(1, "SMBus iSMT adapter"), (11, "ch0")]);
    fake.mux_channels(1, 0x73, &[(0, 11)]);
    let report = fake.instantiate_i2c(&e1031_like_topology()).unwrap();

    assert_eq!(report.buses.resolve(2), 11);
    assert_eq!(report.buses.divergences(), vec![(2, 11)]);
    assert_eq!(report.buses.resolve_hwmon("2-0050"), "11-0050");
    // The syseeprom was created on i2c-11, not the declared i2c-2.
    assert_eq!(fake.new_device[&11], "24lc64t 0x50\n");
}

/// A mux hanging off another mux's channel resolves its parent
/// through the map built so far, not through the declared number.
#[test]
fn nested_mux_parent_resolves_through_the_map() {
    let mut fake = fake_sysfs(&[(1, "SMBus iSMT adapter"), (11, "ch0"), (20, "sub-ch0")]);
    fake.mux_channels(1, 0x73, &[(0, 11)]);
    fake.mux_channels(11, 0x72, &[(0, 20)]);

    let mut topology = e1031_like_topology();
    topology.muxes.push(I2cMux {
        name: "main-extender".into(),
        driver: "pca9548".into(),
        // Declared bus 2 = cpu-extender channel 0, actually i2c-11.
        parent_bus: BusRef::Number(2),
        address: 0x72,
        child_bus_base: 18,
        channels: 8,
    });
    topology.devices = vec![I2cDevice {
        driver: "emc2305".into(),
        bus: BusRef::Number(18),
        address: 0x4d,
        purpose: "fan-controller".into(),
    }];

    let report = fake.instantiate_i2c(&topology).unwrap();

    // Reading the nested mux's channels at all proves its parent
    // resolved 2 -> 11: that is the only directory the links live in.
    assert_eq!(report.buses.resolve(18), 20);
    // Its label names the resolved parent bus, not the declared one.
    assert!(
        report
            .already_present
            .iter()
            .any(|label| label.contains("main-extender") && label.contains("11-0x72")),
        "{:?}",
        report.already_present
    );
    // The fan controller landed on i2c-20.
    assert_eq!(fake.new_device[&20], "emc2305 0x4d\n");
}

/// Channels beyond the mux's declared width are ignored, so a wrong
/// `channels` count cannot claim bus numbers the manifest never
/// declared.
#[test]
fn channels_past_the_declared_width_are_ignored() {
    let mut fake = fake_sysfs(&[(1, "SMBus iSMT adapter"), (2, "ch0")]);
    let mut topology = e1031_like_topology();
    topology.muxes[0].channels = 2;
    fake.mux_channels(1, 0x73, &[(0, 2), (1, 3), (5, 90)]);
    let report = fake.instantiate_i2c(&topology).unwrap();
    assert_eq!(report.buses.resolve(3), 3, "channel 1 -> declared 3");
    assert_eq!(report.buses.resolve(7), 7, "channel 5 was out of range");
}

#[test]
fn second_run_is_idempotent() {
    let mut fake = fake_sysfs(&[(1, "SMBus iSMT adapter"), (2, "ch0")]);
    // Simulate the kernel having created the device dirs from run one.
    for dev in ["1-0073", "2-0050"] {
        fake.present.insert(dev.into());
    }
    let report = fake.instantiate_i2c(&e1031_like_topology()).unwrap();
    assert!(report.created.is_empty());
    assert_eq!(report.already_present.len(), 2);
}

/// A minimal ONIE TlvInfo blob holding the given TLV records.
fn tlvinfo(records: &[(u8, &[u8])]) -> Vec<u8> {
    let mut body = Vec::new();
    for (ty, value) in records {
        body.push(*ty);
        body.push(value.len() as u8);
        body.extend_from_slice(value);
    }
    let mut blob = b"TlvInfo\0".to_vec();
    blob.push(1); // version
    blob.extend_from_slice(&(body.len() as u16).to_be_bytes());
    blob.extend_from_slice(&body);
    blob
}

#[test]
fn parses_onie_base_mac_tlv() {
    let mac = [0x00, 0xe0, 0xec, 0x12, 0x34, 0x56];
    let blob = tlvinfo(&[(0x21, b"E1031"), (0x24, &mac), (0x2a, &[52])]);
    assert_eq!(parse_onie_base_mac(&blob), Some(mac));

    // No 0x24 record, bad magic, and truncated records all yield None.
    assert_eq!(parse_onie_base_mac(&tlvinfo(&[(0x21, b"E1031")])), None);
    assert_eq!(parse_onie_base_mac(b"NotTlv\0\0"), None);
    let mut truncated = tlvinfo(&[(0x24, &mac)]);
    truncated.truncate(14);
    assert_eq!(parse_onie_base_mac(&truncated), None);
}

fn manifest() -> Manifest {
    Manifest {
        schema_version: 1,
        platform: PlatformSection {
            id: "test-sw".into(),
            onie_machine: "x86_64-test_sw-r0".into(),
            vendor: "Test".into(),
            model: "TSW-1".into(),
            asic_family: "broadcom-xgs".into(),
            asic: "helix4".into(),
            cpu_arch: default_cpu_arch(),
            asic_attach: AsicAttach::default(),
        },
        sai: SaiSection {
            backend: SaiBackendKind::default(),
            package: Some("libsaibcm".into()),
            version_pin: Some("x".into()),
            libsai_path: Some("/usr/lib/libsai.so.1".into()),
            shim_path: None,
            abi_major: None,
            config_bcm: "config.bcm".into(),
            extra_files: Vec::new(),
            api_headers: None,
            profile: OrdMap::new(),
        },
        kernel: KernelSection {
            required_modules: Vec::new(),
            module_args: OrdMap::new(),
        },
        ports: PortsSection {
            groups: Vec::new(),
            ports: Vec::new(),
            uc_queues: eight(),
            mc_queues: eight(),
        },
        hardware: HardwareSection {
            i2c: I2cSection {
                root_adapter: None,
                roots: Vec::new(),
                pre_writes: Vec::new(),
                muxes: Vec::new(),
                devices: vec![I2cDevice {
                    driver: "24lc64t".into(),
                    bus: BusRef::Number(2),
                    address: 0x50,
                    purpose: "syseeprom".into(),
                }],
            },
            thermal: ThermalSection {
                sensors: Vec::new(),
                fans: Vec::new(),
                fan_control: None,
            },
            psus: Vec::new(),
            transceivers: Vec::new(),
            quirks: QuirksSection::default(),
        },
        management: Some(ManagementSection {
            interface: "Management1".into(),
            os_device: "eth0".into(),
        }),
    }
}

#[test]
fn base_mac_prefers_syseeprom_then_falls_back_to_netdev() {
    let manifest = manifest();
    let sysfs = Sysfs::at("/tmp/board".to_string());
    let eeprom = |blob: Vec<u8>| {
        vec![Entry {
            name: "2-0050".into(),
            adapter: None,
            eeprom: Some(blob),
        }]
    };

    // Nothing in sysfs yet: no MAC at all.
    assert_eq!(sysfs.base_mac(&manifest, &Vec::new(), &None), None);

    // Management netdev appears: its address is the fallback.
    let netdev = Some("00:e0:ec:aa:bb:cc\n".to_string());
    assert_eq!(
        sysfs.netdev_address("eth0"),
        "/tmp/board/sys/class/net/eth0/address"
    );
    assert_eq!(
        sysfs.base_mac(&manifest, &Vec::new(), &netdev),
        Some([0x00, 0xe0, 0xec, 0xaa, 0xbb, 0xcc])
    );

    // Syseeprom appears: its TLV 0x24 wins over the netdev.
    let mac = [0x00, 0xe0, 0xec, 0x12, 0x34, 0x56];
    assert_eq!(
        sysfs.base_mac(&manifest, &eeprom(tlvinfo(&[(0x24, &mac)])), &netdev),
        Some(mac)
    );

    // A blank (all-zero) EEPROM MAC falls through to the netdev.
    assert_eq!(
        sysfs.base_mac(&manifest, &eeprom(tlvinfo(&[(0x24, &[0u8; 6])])), &netdev),
        Some([0x00, 0xe0, 0xec, 0xaa, 0xbb, 0xcc])
    );
}

#[test]
fn rejects_multicast_and_malformed_netdev_macs() {
    assert!(usable_mac([0x00, 0xe0, 0xec, 1, 2, 3]));
    assert!(!usable_mac([0u8; 6]));
    assert!(!usable_mac([0x01, 0x00, 0x5e, 0, 0, 1]));
    assert_eq!(parse_mac_text("00:e0:ec:aa:bb"), None);
    assert_eq!(parse_mac_text("zz:e0:ec:aa:bb:cc"), None);
    assert_eq!(
        parse_mac_text(" 00:E0:EC:AA:BB:CC\n"),
        Some([0x00, 0xe0, 0xec, 0xaa, 0xbb, 0xcc])
    );
}

#[test]
fn numbered_parent_bus_needs_no_root() {
    let mut fake = fake_sysfs(&[(5, "some adapter")]);
    let i2c = I2cSection {
        root_adapter: None,
        roots: Vec::new(),
        pre_writes: vec![],
        muxes: vec![],
        devices: vec![I2cDevice {
            driver: "24c02".into(),
            bus: BusRef::Number(5),
            address: 0x52,
            purpose: "psu-eeprom".into(),
        }],
    };
    let report = fake.instantiate_i2c(&i2c).unwrap();
    assert_eq!(report.created.len(), 1);
}

// ----------------------------------------------------------------- quirks

#[test]
fn registry_resolves_all_known_names() {
    for name in known_names().iter() {
        let quirks = by_name(name).expect("known name resolves");
        assert_eq!(&quirks.name(), name);
    }
    assert!(by_name("bogus").is_none());
}

/// The reset sequence is the board fact this quirk exists to carry,
/// so pin it against ONL's CPLD map and the edgenos bring-up
/// sequence. Getting a register or a value wrong here leaves every
/// port dark with nothing in the log pointing here.
#[test]
fn phy_reset_sequence_matches_the_board() {
    let expected: [(u8, u8); 5] = [
        (0x07, 0x02),
        (0x08, 0x02),
        (0x0d, 0x01),
        (0x19, 0x00),
        (0x1b, 0x00),
    ];
    let actual: Vec<(u8, u8)> = AS4610_PHY_RESET_DEASSERT
        .iter()
        .map(|(register, value, _)| (*register, *value))
        .collect();
    assert_eq!(actual, expected);
    assert_eq!(AS4610_CPLD_ADDR, 0x30);
}

impl Fake {
    /// The deassert sequence, on registers that read back what they hold.
    fn deassert(&mut self, bus: u32, writes: &mut String) -> Result<(), QuirkError> {
        let (mut stage, mut action) = deassert_phy_reset(Some(bus))?;
        loop {
            let event = match action {
                PhyAction::Finished => return Ok(()),
                PhyAction::Read { register } => {
                    let held = self.registers.get(&reg_file(AS4610_CPLD_ADDR, register));
                    match read_reg_output(bus, held.map(String::as_str).unwrap_or("")) {
                        Ok(value) => PhyEvent::Value(value),
                        Err(e) => PhyEvent::Failed(e.message()),
                    }
                }
                PhyAction::Write { register, value } => {
                    writes.push_str(&reg_write_record(AS4610_CPLD_ADDR, register, value));
                    PhyEvent::Written
                }
            };
            (stage, action) = next_phy_step(stage, &event)?;
        }
    }
}

/// Reading a register that is already at its target value must skip
/// the write: syncd restarts, and bouncing the PHYs on every restart
/// would drop every link on the box.
#[test]
fn already_deasserted_registers_are_left_alone() {
    let mut fake = fake_sysfs(&[]);
    // Seed every register at its post-deassert value.
    for (register, value, _) in AS4610_PHY_RESET_DEASSERT {
        fake.registers
            .insert(format!("reg-30-{register:02x}"), format!("0x{value:02x}"));
    }
    for (register, value, _) in AS4610_PHY_RESET_DEASSERT {
        let held = &fake.registers[&reg_file(AS4610_CPLD_ADDR, register)];
        assert_eq!(
            read_reg_output(0, held).unwrap(),
            value,
            "seeded value reads back"
        );
    }
    let mut writes = String::new();
    fake.deassert(0, &mut writes).unwrap();
    // Nothing was written.
    assert!(writes.is_empty(), "unexpected writes: {writes:?}");
}

/// A write that does not stick is the failure this quirk is built to
/// catch, so the read-back must reject it rather than report success.
#[test]
fn a_write_that_does_not_stick_is_detected() {
    let mut fake = fake_sysfs(&[]);
    // A CPLD that reads back a stale value whatever is written.
    fake.registers.insert("reg-30-07".into(), "0x00".into());
    let mut writes = String::new();
    let err = fake.deassert(0, &mut writes).unwrap_err();
    assert_eq!(err.quirk, "as4610");
    assert!(err.text().contains("0x02"), "{}", err.text());
    let readback = read_reg_output(0, &fake.registers["reg-30-07"]).unwrap();
    assert_ne!(readback, 0x02, "the fake CPLD keeps its stale value");

    // The write was still attempted, in the right shape.
    assert_eq!(writes, "0x30 0x07 0x02\n");
}

#[test]
fn i2cget_output_parses() {
    assert_eq!(parse_i2c_byte_for_test("0x1a"), Some(0x1a));
    assert_eq!(parse_i2c_byte_for_test("0X02"), Some(0x02));
    assert_eq!(parse_i2c_byte_for_test(" 0x00 "), Some(0x00));
    assert_eq!(parse_i2c_byte_for_test("1a"), Some(0x1a));
    assert_eq!(parse_i2c_byte_for_test("nonsense"), None);
    assert_eq!(parse_i2c_byte_for_test(""), None);
}

// ------------------------------------------------------------ more scenarios

#[test]
fn hooks_belong_to_their_boards() {
    let generic = by_name("generic").unwrap();
    assert_eq!(generic.pre_asic_init(), Hook::Nothing);
    assert_eq!(generic.post_asic_init(), Hook::Nothing);
    let as4610 = by_name("as4610").unwrap();
    assert_eq!(as4610.pre_asic_init(), Hook::ReleaseAsic);
    let haliburton = by_name("haliburton").unwrap();
    assert_eq!(haliburton.post_hw_init(), Hook::LightLeds);
    assert_eq!(led_writes()[1], ("LED_FPS system green", 0x020a, 0x05));
    assert!(is_cmic("48000000.iproc_cmicd"));
    assert!(!is_cmic("48000000.uart"));
    let err = deassert_phy_reset(None).unwrap_err();
    assert!(err.text().contains(AS4610_CPLD_ROOT));
}

#[test]
fn asics_are_found_by_their_attachment() {
    let vendors = vec!["0x8086\n".to_string(), "0x14e4\n".to_string()];
    let devices = vec!["48000000.iproc_cmicd".to_string()];
    assert!(asic_present(AsicAttach::Pcie, &vendors, &Vec::new()));
    assert!(!asic_present(AsicAttach::Pcie, &Vec::new(), &devices));
    assert!(asic_present(AsicAttach::Soc, &Vec::new(), &devices));
    assert!(!asic_present(AsicAttach::Soc, &vendors, &Vec::new()));
}

#[test]
fn modules_load_with_their_arguments() {
    let mut module_args: OrdMap<String, String> = OrdMap::new();
    module_args.insert("linux-kernel-bde".into(), "dmasize=32M  debug=1".into());
    let commands = module_commands(&KernelSection {
        required_modules: vec!["linux-kernel-bde".into(), "linux-user-bde".into()],
        module_args,
    });
    assert_eq!(
        commands[0],
        vec!["linux-kernel-bde", "dmasize=32M", "debug=1"]
    );
    assert_eq!(commands[1], vec!["linux-user-bde"]);
    assert!(module_outcome("tun", true, "").is_ok());
    let err = module_outcome("tun", false, "not found\n").unwrap_err();
    assert_eq!(err.message(), "modprobe tun failed: not found");
    assert_eq!(bde_dev_nodes().len(), 4);
}

#[test]
fn commands_and_errors_are_spelled_out() {
    let write = &e1031_like_topology().pre_writes[0];
    assert_eq!(
        raw_write_args(1, write),
        vec!["-y", "-f", "1", "0x73", "0x10", "0x00", "0x01", "i"]
    );
    assert_eq!(
        reg_write_args(0, 0x30, 0x07, 0x02),
        vec!["-y", "-f", "0", "0x30", "0x07", "0x02"]
    );
    assert_eq!(
        reg_read_args(0, 0x30, 0x07),
        vec!["-y", "-f", "0", "0x30", "0x07"]
    );
    assert_eq!(
        reg_refused(true, true, 0, " bus error\n").message(),
        "i2c i2c_write_reg on bus 0: bus error"
    );
    assert_eq!(
        reg_refused(false, false, 0, "not found ").message(),
        "i2c i2c_read_reg on bus 0: not found "
    );
    assert_eq!(
        reg_not_started(false, 3, "no such file").message(),
        "spawning i2cget bus 3: no such file"
    );
    assert_eq!(
        read_reg_output(0, "junk\n").unwrap_err().message(),
        "i2c i2c_read_reg on bus 0: unparsable i2cget output \"junk\""
    );
    assert_eq!(read_reg_file(0, "0x1a\n").unwrap(), 0x1a);
    assert_eq!(
        read_reg_file(0, "junk\n").unwrap_err().message(),
        "i2c i2c_read_reg on bus 0: unparsable \"junk\\n\""
    );
    assert_eq!(
        SysinitError::RootAdapterNotFound("X".into()).message(),
        "no i2c adapter matching \"X\" found (platform modules loaded?)"
    );
    let links = vec![
        Link {
            name: "channel-0".into(),
            target: Some("../i2c-7".into()),
        },
        Link {
            name: "name".into(),
            target: None,
        },
    ];
    assert_eq!(mux_child_buses(&links), vec![(0, 7)]);
    assert!(Sysfs::system().is_system());
    assert_eq!(Sysfs::system().i2c_dev_dir(), "/sys/bus/i2c/devices");
}

/// An absent PSU's driver fails to bind; the pass goes on to the next.
#[test]
fn absent_psus_are_skipped() {
    let psu = |name: &str, address: u32| Psu {
        name: name.into(),
        bus: BusRef::Number(1),
        address,
        driver: "pmbus".into(),
        eeprom_address: None,
        presence_attr: None,
        status_attr: None,
    };
    let psus = vec![psu("PSU-1", 0x58), psu("PSU-2", 0x59)];
    let mut fake = fake_sysfs(&[(1, "SMBus iSMT adapter"), (2, "ch0")]);
    let mut report = fake.instantiate_i2c(&e1031_like_topology()).unwrap();
    let created = report.created.len();
    let sysfs = fake.sysfs();
    let (mut pass, mut action) = sysfs.first_psu(&psus, &report);
    let mut tried: Vec<u32> = Vec::new();
    loop {
        let event = match &action {
            Action::Finished => break,
            Action::Probe { .. } => Event::Present(false),
            Action::Create { address, .. } => {
                tried.push(*address);
                if *address == 0x58 {
                    Event::Refused("No such device".into())
                } else {
                    Event::Done
                }
            }
            other => panic!("unexpected {other:?}"),
        };
        (pass, action) = sysfs.instantiate_psus(&psus, &mut report, pass, &event);
    }
    assert_eq!(tried, vec![0x58, 0x59]);
    assert_eq!(report.created.len(), created + 1);
    assert!(report.created.last().unwrap().contains("PSU-2"));
}

/// Two passes over the PSUs on one board: the second finds the one that is
/// fitted, and is refused the other again.
#[test]
fn a_second_psu_pass_creates_nothing() {
    let psu = |name: &str, address: u32| Psu {
        name: name.into(),
        bus: BusRef::Number(1),
        address,
        driver: "pmbus".into(),
        eeprom_address: None,
        presence_attr: None,
        status_attr: None,
    };
    let psus = vec![psu("PSU-1", 0x58), psu("PSU-2", 0x59)];
    let mut fake = fake_sysfs(&[(1, "SMBus iSMT adapter"), (2, "ch0")]);
    let mut report = fake.instantiate_i2c(&e1031_like_topology()).unwrap();
    let sysfs = fake.sysfs();
    let mut probes: Vec<bool> = Vec::new();
    let mut there = false;
    let before = report.created.len();
    for _ in 0..2 {
        let (mut pass, mut action) = sysfs.first_psu(&psus, &report);
        let mut address: u32 = 0x58;
        loop {
            let event = match &action {
                Action::Finished => break,
                Action::Probe { .. } => {
                    let found = address == 0x59 && there;
                    probes.push(found);
                    address += 1;
                    Event::Present(found)
                }
                Action::Create { address: 0x59, .. } => {
                    there = true;
                    Event::Done
                }
                Action::Create { .. } => Event::Refused("No such device".into()),
                other => panic!("unexpected {other:?}"),
            };
            (pass, action) = sysfs.instantiate_psus(&psus, &mut report, pass, &event);
        }
        assert_eq!(report.created.len(), before + 1);
    }
    assert_eq!(probes, vec![false, false, false, true]);
    assert!(report.already_present.last().unwrap().contains("PSU-2"));
}

/// On a CPLD that keeps what is written, a first sequence writes every
/// register and a second none.
#[test]
fn a_second_deassert_sequence_writes_nothing() {
    let mut held: [u8; 256] = [0xff; 256];
    let mut writes: Vec<(u8, u8)> = Vec::new();
    for _ in 0..2 {
        let (mut stage, mut action) = deassert_phy_reset(Some(0)).unwrap();
        loop {
            let event = match action {
                PhyAction::Finished => break,
                PhyAction::Read { register } => PhyEvent::Value(held[register as usize]),
                PhyAction::Write { register, value } => {
                    held[register as usize] = value;
                    writes.push((register, value));
                    PhyEvent::Written
                }
            };
            (stage, action) = next_phy_step(stage, &event).unwrap();
        }
        assert_eq!(writes.len(), 5);
    }
    for (register, value, _) in AS4610_PHY_RESET_DEASSERT {
        assert_eq!(held[register as usize], value);
    }
}

/// Two whole runs on one board: what the first creates the second finds, on
/// the same buses.
#[test]
fn a_second_run_finds_what_the_first_created() {
    let mut fake = fake_sysfs(&[(1, "SMBus iSMT adapter"), (9, "ch0")]);
    fake.links.insert("1-0073".into(), vec![(0, 9)]);
    let topology = e1031_like_topology();
    let first = fake.instantiate_i2c(&topology).unwrap();
    assert_eq!(
        first.created,
        vec![
            "mux cpu-extender (pca9548@1-0x73)",
            "syseeprom (24lc64t@9-0x50)"
        ]
    );
    for entry in ["1-0073", "9-0050"] {
        fake.present.insert(entry.into());
    }
    fake.new_device.clear();
    let second = fake.instantiate_i2c(&topology).unwrap();
    assert!(second.created.is_empty());
    assert_eq!(second.already_present, first.created);
    assert_eq!(second.root_bus, first.root_bus);
    assert_eq!(second.buses.resolve(2), first.buses.resolve(2));
    assert_eq!(second.buses.resolve(2), 9);
    assert!(fake.new_device.is_empty());
}

/// A refused pre-write says what it was for where a tool refused it, and gives
/// the bare reason in a tree of files.
#[test]
fn refused_pre_writes_say_why() {
    let fake = fake_sysfs(&[(1, "SMBus iSMT adapter")]);
    let topology = e1031_like_topology();
    let refused = || Event::Refused("bus error \n".into());
    let (mut bringup, _) = Sysfs::system()
        .instantiate_i2c(&topology, &fake.entries())
        .unwrap();
    let error = bringup.next(&topology, &refused()).unwrap_err();
    assert_eq!(
        error.message(),
        "i2c raw_write on bus 1: wake cpu-extender: bus error"
    );
    let (mut bringup, _) = fake
        .sysfs()
        .instantiate_i2c(&topology, &fake.entries())
        .unwrap();
    let error = bringup.next(&topology, &refused()).unwrap_err();
    assert_eq!(error.message(), "i2c raw_write on bus 1: bus error \n");
}

/// The root is found by where a path leads, not by how it is spelled, and an
/// absolute device name replaces the path to it.
#[test]
fn roots_and_devices_are_paths() {
    for root in ["/", "//", "/.", "/./", "//.//."] {
        assert!(Sysfs::at(root.to_string()).is_system(), "{root:?}");
    }
    for root in ["", ".", "./", "/..", "/tmp", "/...", "tmp/"] {
        assert!(!Sysfs::at(root.to_string()).is_system(), "{root:?}");
    }
    let sysfs = Sysfs::at("/tmp/board/".to_string());
    assert_eq!(
        sysfs.netdev_address("eth0"),
        "/tmp/board/sys/class/net/eth0/address"
    );
    assert_eq!(sysfs.netdev_address("/dev/eth0"), "/dev/eth0/address");
    assert_eq!(
        sysfs.netdev_address(""),
        "/tmp/board/sys/class/net/address"
    );
    assert_eq!(
        Sysfs::at(String::new()).netdev_address("eth0"),
        "sys/class/net/eth0/address"
    );
}
