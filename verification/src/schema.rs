//! The `platform.toml` manifest schema (v1).
//!
//! Everything a board contributes to Hemlock is data in this schema plus
//! vendor files sitting next to it.

use vstd::prelude::*;

use crate::ordmap::OrdMap;
use crate::text::{decimal, quoted};

verus! {

pub const SCHEMA_VERSION: u32 = 1;

pub struct Manifest {
    pub schema_version: u32,
    pub platform: PlatformSection,
    pub sai: SaiSection,
    pub kernel: KernelSection,
    pub ports: PortsSection,
    pub hardware: HardwareSection,
    /// The out-of-band management port, when the board has one.
    pub management: Option<ManagementSection>,
}

/// Out-of-band management port: how the CLI names it and which OS netdev
/// backs it (management networking is OS-level, not ASIC-level).
pub struct ManagementSection {
    /// CLI-facing name, e.g. `Management1`.
    pub interface: String,
    /// Linux netdev behind it, e.g. `eth0`.
    pub os_device: String,
}

pub struct PlatformSection {
    /// Stable identifier; must match the directory name under `platforms/`.
    pub id: String,
    /// ONIE machine string, e.g. `x86_64-cel_e1031-r0`.
    pub onie_machine: String,
    pub vendor: String,
    pub model: String,
    /// ASIC family selects the syncd init strategy, e.g. `broadcom-xgs`.
    pub asic_family: String,
    /// Concrete ASIC, e.g. `helix4`.
    pub asic: String,
    /// CPU architecture of the board, in Debian's spelling (`amd64`,
    /// `armhf`).
    pub cpu_arch: String,
    /// How the host CPU reaches the ASIC.
    pub asic_attach: AsicAttach,
}

/// The CPU architecture of a manifest that names none.
pub fn default_cpu_arch() -> (r: String)
    ensures
        r@ == "amd64"@,
{
    "amd64".to_owned()
}

/// Known CPU architectures and the ONIE machine-string prefix each one
/// implies.
pub const KNOWN_CPU_ARCHES: [(&'static str, &'static str); 2] = [
    ("amd64", "x86_64-"),
    ("armhf", "arm-"),
];

/// How the host CPU reaches the switch ASIC.
#[derive(Debug, Clone, Copy, PartialEq, Eq, Structural)]
pub enum AsicAttach {
    /// PCI-attached: probe for the vendor id on the PCI bus.
    Pcie,
    /// On-die CMIC on the SoC bus: probe for the platform device.
    Soc,
}

impl Default for AsicAttach {
    fn default() -> (r: Self)
        ensures
            r == AsicAttach::Pcie,
    {
        AsicAttach::Pcie
    }
}

impl AsicAttach {
    pub fn as_str(self) -> (r: &'static str)
        ensures
            r@ == (match self {
                AsicAttach::Pcie => "pcie"@,
                AsicAttach::Soc => "soc"@,
            }),
    {
        match self {
            AsicAttach::Pcie => "pcie",
            AsicAttach::Soc => "soc",
        }
    }
}

/// Which datapath library backs this platform.
#[derive(Debug, Clone, Copy, PartialEq, Eq, Structural)]
pub enum SaiBackendKind {
    Sai,
    Openbcm,
}

impl Default for SaiBackendKind {
    fn default() -> (r: Self)
        ensures
            r == SaiBackendKind::Sai,
    {
        SaiBackendKind::Sai
    }
}

impl SaiBackendKind {
    pub fn as_str(self) -> (r: &'static str)
        ensures
            r@ == (match self {
                SaiBackendKind::Sai => "sai"@,
                SaiBackendKind::Openbcm => "openbcm"@,
            }),
    {
        match self {
            SaiBackendKind::Sai => "sai",
            SaiBackendKind::Openbcm => "openbcm",
        }
    }
}

/// The datapath library section. The fields below that only apply to one
/// backend are enforced by lint rather than by the type.
pub struct SaiSection {
    /// Which backend drives the ASIC.
    pub backend: SaiBackendKind,
    /// Vendor SAI package name, e.g. `libsaibcm`.
    pub package: Option<String>,
    /// Abstract per-platform pin (e.g. `3.7.x-helix4`).
    pub version_pin: Option<String>,
    /// Absolute path of the vendor library inside the image.
    pub libsai_path: Option<String>,
    /// Absolute path of Hemlock's OpenBCM shim inside the image.
    pub shim_path: Option<String>,
    /// Shim ABI major version this platform's image provides.
    pub abi_major: Option<u32>,
    /// ASIC init config, relative to the platform directory.
    pub config_bcm: String,
    /// Additional vendor data files (LED microcode etc.), relative paths.
    pub extra_files: Vec<String>,
    /// Which vendored SAI header set matches this SAI build's API.
    pub api_headers: Option<String>,
    /// Extra SAI profile key/values handed to the vendor library.
    pub profile: OrdMap<String, String>,
}

pub struct KernelSection {
    /// Kernel modules the pinned SAI expects.
    pub required_modules: Vec<String>,
    /// Whitespace-separated `key=value` modprobe parameters per module.
    pub module_args: OrdMap<String, String>,
}

/// Port table. Regular boards describe ports in arithmetic *groups*; oddball
/// ports can be listed individually.
pub struct PortsSection {
    pub groups: Vec<PortGroup>,
    pub ports: Vec<PortEntry>,
    /// Unicast egress queues per front-panel port.
    pub uc_queues: u32,
    /// Multicast egress queues per front-panel port.
    pub mc_queues: u32,
}

/// A run of ports sharing prefix, speed, and lane count.
///
/// Port `i` (0-based within the group) gets:
/// - name  = `{prefix}{name_start + i}`
/// - index = `index_start + i`
/// - alias = `{alias_prefix}{index}` (if `alias_prefix` is set)
/// - lanes = the `i`-th chunk of `lanes`, `lanes_per_port` wide
pub struct PortGroup {
    pub prefix: String,
    pub name_start: u32,
    pub index_start: u32,
    pub speed_mbps: u32,
    pub lanes_per_port: u32,
    /// Flat lane list, length = port count x lanes_per_port.
    pub lanes: Vec<u32>,
    pub alias_prefix: Option<String>,
    pub autoneg: bool,
    /// Physical media, as shown in `show interfaces status`.
    pub media: Option<String>,
    /// Supported breakout modes, e.g. `["4x10G"]`.
    pub breakout: Vec<String>,
    /// PHY model behind these ports.
    pub phy_model: Option<String>,
    /// Supported speed/duplex modes.
    pub supported_modes: Vec<String>,
    /// Vendor SDK port names, one per port, in the order this group
    /// expands. Empty = no assertion.
    pub sdk_names: Vec<String>,
}

/// A single explicitly described port.
pub struct PortEntry {
    pub name: String,
    pub index: u32,
    pub speed_mbps: u32,
    pub lanes: Vec<u32>,
    pub alias: Option<String>,
    pub autoneg: bool,
    pub media: Option<String>,
    pub breakout: Vec<String>,
    pub phy_model: Option<String>,
    pub supported_modes: Vec<String>,
    /// Vendor SDK port name; see [`PortGroup::sdk_names`].
    pub sdk_name: Option<String>,
}

/// Lanes per port of a group that names none.
pub fn one() -> (r: u32)
    ensures
        r == 1,
{
    1
}

/// Unicast queues of a port table that names none.
pub fn eight() -> (r: u32)
    ensures
        r == 8,
{
    8
}

/// Standard hwmon `pwmN` full scale.
pub fn default_pwm_max() -> (r: u32)
    ensures
        r == 255,
{
    255
}

pub struct HardwareSection {
    pub i2c: I2cSection,
    pub thermal: ThermalSection,
    pub psus: Vec<Psu>,
    pub transceivers: Vec<Transceiver>,
    pub quirks: QuirksSection,
}

/// I2C mux/device topology as data.
pub struct I2cSection {
    /// Adapter-name prefix identifying the root SMBus adapter. Shorthand
    /// for a single `[[root]]` named `root`.
    pub root_adapter: Option<String>,
    /// Named root adapters, for boards with more than one.
    pub roots: Vec<I2cRoot>,
    /// Raw i2c writes performed before any mux is instantiated.
    pub pre_writes: Vec<I2cWrite>,
    pub muxes: Vec<I2cMux>,
    pub devices: Vec<I2cDevice>,
}

/// The name Hemlock gives the adapter declared by the `root_adapter`
/// shorthand.
pub const DEFAULT_ROOT_NAME: &'static str = "root";

/// One root i2c adapter: an adapter the kernel provides, which the
/// manifest's topology hangs off.
pub struct I2cRoot {
    /// Manifest-local name.
    pub name: String,
    /// Adapter-name prefix, matched against `/sys/.../i2c-N/name`.
    pub adapter: String,
    /// Which match to take when several adapters share the prefix, in
    /// bus-number order.
    pub instance: u32,
}

/// Reference to an i2c bus: a named root adapter, or a bus number in the
/// manifest's declared numbering (see `child_bus_base`).
#[derive(Debug)]
pub enum BusRef {
    Number(u32),
    Named(String),
}

/// How a bus reference is shown: a number as it is, a name in quotes.
pub open spec fn bus_ref_text(bus: BusRef) -> Seq<char> {
    match bus {
        BusRef::Number(n) => crate::text::decimal_text(n as nat),
        BusRef::Named(name) => crate::text::quoted_text(name@),
    }
}

impl BusRef {
    pub fn shown(&self) -> (r: String)
        ensures
            r@ == bus_ref_text(*self),
    {
        match self {
            BusRef::Number(n) => decimal(*n as u64),
            BusRef::Named(name) => quoted(name.as_str()),
        }
    }
}

/// One raw write, executed with i2cset-style block semantics.
pub struct I2cWrite {
    pub bus: BusRef,
    pub address: u32,
    /// Bytes written: first byte is the register, the rest block data.
    pub data: Vec<u32>,
    /// Why this write exists — shown in logs.
    pub purpose: String,
}

pub struct I2cMux {
    pub name: String,
    /// Kernel driver, e.g. `pca9548`.
    pub driver: String,
    pub parent_bus: BusRef,
    pub address: u32,
    /// First child bus number this mux fans out to.
    pub child_bus_base: u32,
    pub channels: u32,
}

pub struct I2cDevice {
    /// Kernel driver name to bind.
    pub driver: String,
    pub bus: BusRef,
    pub address: u32,
    /// What this device is for, e.g. `syseeprom`.
    pub purpose: String,
}

pub struct ThermalSection {
    pub sensors: Vec<ThermalSensor>,
    pub fans: Vec<FanDef>,
    pub fan_control: Option<FanControl>,
}

/// A temperature: where it stands in the order of all temperatures, and
/// how it is shown. A reading that is no number has no place in the order.
pub struct Celsius {
    pub order: Option<i64>,
    pub shown: String,
}

impl Celsius {
    /// Is this temperature at least the other one? Never where one of
    /// them is no number.
    pub open spec fn spec_at_least(self, other: Celsius) -> bool {
        self.order is Some && other.order is Some && self.order->0 >= other.order->0
    }

    pub fn at_least(&self, other: &Celsius) -> (r: bool)
        ensures
            r == self.spec_at_least(*other),
    {
        match (self.order, other.order) {
            (Some(a), Some(b)) => a >= b,
            _ => false,
        }
    }
}

pub struct ThermalSensor {
    pub name: String,
    /// hwmon device identity, `<bus>-<addr>` sysfs style (e.g. `11-001a`).
    pub hwmon: String,
    /// Channel within the device, e.g. `temp3`.
    pub input: String,
    pub warn_c: Celsius,
    pub crit_c: Celsius,
}

pub struct FanDef {
    pub name: String,
    pub hwmon: String,
    /// Tach input within the device, e.g. `fan4`.
    pub tach: String,
    /// PWM output within the device, e.g. `pwm4`.
    pub pwm: String,
    /// Verbatim tach attribute name. Overrides `tach` when present.
    pub rpm_attr: Option<String>,
    /// Verbatim PWM attribute name. Overrides `pwm` when present.
    pub pwm_attr: Option<String>,
    /// Full-scale value of the PWM attribute.
    pub pwm_max: u32,
    /// Absolute sysfs attribute holding tray presence (integer).
    pub presence_attr: Option<String>,
    /// Presence attribute polarity: true when 0 means present.
    pub presence_active_low: bool,
    /// Absolute sysfs attribute controlling the tray LED.
    pub led_attr: Option<String>,
}

/// Linear-interpolated fan curve driven by one named sensor.
pub struct FanControl {
    pub sensor: String,
    pub interval_secs: u32,
    /// Curve points, strictly increasing temperature.
    pub curve: Vec<CurvePoint>,
}

pub struct CurvePoint {
    pub temp_c: Celsius,
    pub pwm_percent: u32,
}

/// Seconds between two fan-curve evaluations where a manifest names none.
pub fn default_interval() -> (r: u32)
    ensures
        r == 5,
{
    5
}

pub struct Psu {
    pub name: String,
    pub bus: BusRef,
    pub address: u32,
    pub driver: String,
    pub eeprom_address: Option<u32>,
    /// Absolute sysfs attribute holding presence as an integer.
    pub presence_attr: Option<String>,
    /// Absolute sysfs attribute holding power-good as an integer (1 = ok).
    pub status_attr: Option<String>,
}

/// Maps a front-panel port to the i2c bus carrying its module EEPROM.
pub struct Transceiver {
    pub port: String,
    pub bus: BusRef,
    /// EEPROM driver, e.g. `optoe1` (QSFP) or `optoe2` (SFP).
    pub driver: String,
}

pub struct QuirksSection {
    /// Name of the registered quirks driver; `generic` for boards with no
    /// special behavior.
    pub driver: String,
}

impl Default for QuirksSection {
    fn default() -> (r: Self)
        ensures
            r.driver@ == "generic"@,
    {
        QuirksSection { driver: "generic".to_owned() }
    }
}

} // verus!
