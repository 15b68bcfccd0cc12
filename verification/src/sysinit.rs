//! Manifest-driven system bring-up: kernel modules, BDE device nodes, and
//! i2c topology instantiation.
//!
//! All actions are idempotent: daemons may restart at any time and must be
//! able to re-run bring-up over an already-initialized system.
//!
//! What sysfs holds is handed in, and what has to be done to it is handed
//! out, so the i2c logic runs against any tree.

use vstd::prelude::*;

use crate::mac::parse_mac;
use crate::ordmap::OrdMap;
use crate::platform::{is_rooted, join_path};
use crate::schema::{
    AsicAttach, BusRef, I2cDevice, I2cMux, I2cSection, I2cWrite, KernelSection, Manifest, Psu,
    DEFAULT_ROOT_NAME,
};
use crate::text::{
    cat2, cat3, cat4, cat6, cut, decimal, ends_with, hex, parse_decimal, parse_hex, quoted,
    same_text, split, starts_with, strip_prefix, trim, words,
};

verus! {

// ----------------------------------------------------------------- errors

#[derive(Debug)]
pub enum SysinitError {
    Modprobe { module: String, detail: String },
    RootAdapterNotFound(String),
    I2c { action: &'static str, bus: u32, detail: String },
    Spawn { command: String, source: String },
}

/// An error as mathematical values.
pub enum ErrorModel {
    Modprobe { module: Seq<char>, detail: Seq<char> },
    RootAdapterNotFound(Seq<char>),
    I2c { action: Seq<char>, bus: u32, detail: Seq<char> },
    Spawn { command: Seq<char>, source: Seq<char> },
}

impl View for SysinitError {
    type V = ErrorModel;

    open spec fn view(&self) -> ErrorModel {
        match *self {
            SysinitError::Modprobe { module, detail } => ErrorModel::Modprobe {
                module: module@,
                detail: detail@,
            },
            SysinitError::RootAdapterNotFound(prefix) => ErrorModel::RootAdapterNotFound(prefix@),
            SysinitError::I2c { action, bus, detail } => ErrorModel::I2c {
                action: action@,
                bus,
                detail: detail@,
            },
            SysinitError::Spawn { command, source } => ErrorModel::Spawn {
                command: command@,
                source: source@,
            },
        }
    }
}

/// The message of an error.
pub open spec fn error_text(e: ErrorModel) -> Seq<char> {
    match e {
        ErrorModel::Modprobe { module, detail } => "modprobe "@ + module + " failed: "@ + detail,
        ErrorModel::RootAdapterNotFound(prefix) => "no i2c adapter matching "@
            + crate::text::quoted_text(prefix) + " found (platform modules loaded?)"@,
        ErrorModel::I2c { action, bus, detail } => "i2c "@ + action + " on bus "@
            + crate::text::decimal_text(bus as nat) + ": "@ + detail,
        ErrorModel::Spawn { command, source } => "spawning "@ + command + ": "@ + source,
    }
}

impl SysinitError {
    pub fn message(&self) -> (r: String)
        ensures
            r@ == error_text(self@),
    {
        match self {
            SysinitError::Modprobe { module, detail } => cat4(
                "modprobe ",
                module,
                " failed: ",
                detail,
            ),
            SysinitError::RootAdapterNotFound(prefix) => cat3(
                "no i2c adapter matching ",
                &quoted(prefix),
                " found (platform modules loaded?)",
            ),
            SysinitError::I2c { action, bus, detail } => cat6(
                "i2c ",
                action,
                " on bus ",
                &decimal(*bus as u64),
                ": ",
                detail,
            ),
            SysinitError::Spawn { command, source } => cat4("spawning ", command, ": ", source),
        }
    }
}

// ------------------------------------------------------------ ASIC, modules

/// The platform-device name suffix an XGS iProc CMICd registers under.
pub const SOC_CMIC_DEVICE_SUFFIX: &'static str = ".iproc_cmicd";

/// Is one of the first `n` texts the vendor id of the ASIC's maker?
pub open spec fn vendor_listed(vendors: Seq<Seq<char>>, n: int) -> bool {
    exists|i: int|
        0 <= i < n && crate::text::trim_text(#[trigger] vendors[i]) == "0x14e4"@
}

/// Is one of the first `n` names an on-die CMIC?
pub open spec fn cmic_listed(names: Seq<Seq<char>>, n: int) -> bool {
    exists|i: int|
        0 <= i < n && crate::text::finishes_with(
            #[trigger] names[i],
            SOC_CMIC_DEVICE_SUFFIX@,
        )
}

/// Whether the switch ASIC is actually in this box.
///
/// The cheapest such probe, used by `--auto-mock` to pick the mock
/// backend under QEMU or on a bench machine without touching kernel
/// modules. How to look depends on how the CPU reaches the ASIC, which
/// the manifest declares:
///
/// * `AsicAttach::Pcie`: a Broadcom (vendor `0x14e4`) PCI device, among the
///   `vendor` files of the PCI devices.
/// * `AsicAttach::Soc`: an on-die CMIC on the SoC bus, which has no
///   PCI device at all: the `iproc_cmicd` among the platform devices, matched
///   by suffix so the board's base address stays out of the code.
pub fn asic_present(attach: AsicAttach, vendors: &Vec<String>, devices: &Vec<String>) -> (r: bool)
    ensures
        r == match attach {
            AsicAttach::Pcie => vendor_listed(vendors.deep_view(), vendors@.len() as int),
            AsicAttach::Soc => cmic_listed(devices.deep_view(), devices@.len() as int),
        },
{
    match attach {
        AsicAttach::Pcie => {
            let ghost all = vendors.deep_view();
            let mut i: usize = 0;
            while i < vendors.len()
                invariant
                    i <= vendors@.len(),
                    attach == AsicAttach::Pcie,
                    all == vendors.deep_view(),
                    all.len() == vendors@.len(),
                    !vendor_listed(all, i as int),
                decreases vendors@.len() - i,
            {
                assert(all[i as int] == vendors@[i as int]@);
                if same_text(&trim(&vendors[i]), "0x14e4") {
                    return true;
                }
                i = i + 1;
            }
            false
        },
        AsicAttach::Soc => {
            let ghost all = devices.deep_view();
            let mut i: usize = 0;
            while i < devices.len()
                invariant
                    i <= devices@.len(),
                    attach == AsicAttach::Soc,
                    all == devices.deep_view(),
                    all.len() == devices@.len(),
                    !cmic_listed(all, i as int),
                decreases devices@.len() - i,
            {
                assert(all[i as int] == devices@[i as int]@);
                if ends_with(&devices[i], SOC_CMIC_DEVICE_SUFFIX) {
                    return true;
                }
                i = i + 1;
            }
            false
        },
    }
}

/// The arguments that `modprobe` loads a module with: its name, then the
/// words of its `[kernel.module_args]` entry.
pub open spec fn modprobe_args(
    module: Seq<char>,
    args: Map<Seq<char>, String>,
) -> Seq<Seq<char>> {
    if args.dom().contains(module) {
        seq![module] + crate::text::words_of(args[module]@)
    } else {
        seq![module]
    }
}

fn module_command(module: &String, kernel: &KernelSection) -> (r: Vec<String>)
    requires
        kernel.module_args.wf(),
    ensures
        r.deep_view() == modprobe_args(module@, kernel.module_args@),
{
    let mut r: Vec<String> = Vec::new();
    r.push(module.clone());
    assert(r.deep_view() =~= seq![module@]);
    match kernel.module_args.get(module) {
        Some(args) => {
            let mut rest = words(args);
            let ghost tail = rest.deep_view();
            r.append(&mut rest);
            assert(r.deep_view() =~= seq![module@] + tail);
        },
        None => {},
    }
    r
}

/// What to load, in order: the arguments of `modprobe` for every module in
/// `[kernel] required_modules`, with any `[kernel.module_args]` parameters.
/// `modprobe` is idempotent (params are ignored on an already-loaded module),
/// so this is safe on every daemon start.
pub fn module_commands(kernel: &KernelSection) -> (r: Vec<Vec<String>>)
    requires
        kernel.module_args.wf(),
    ensures
        r@.len() == kernel.required_modules@.len(),
        forall|i: int|
            #![trigger r@[i]]
            0 <= i < r@.len() ==> r@[i].deep_view() == modprobe_args(
                kernel.required_modules@[i]@,
                kernel.module_args@,
            ),
{
    let mut r: Vec<Vec<String>> = Vec::new();
    let mut i: usize = 0;
    while i < kernel.required_modules.len()
        invariant
            kernel.module_args.wf(),
            i <= kernel.required_modules@.len(),
            r@.len() == i,
            forall|j: int|
                #![trigger r@[j]]
                0 <= j < i ==> r@[j].deep_view() == modprobe_args(
                    kernel.required_modules@[j]@,
                    kernel.module_args@,
                ),
        decreases kernel.required_modules@.len() - i,
    {
        r.push(module_command(&kernel.required_modules[i], kernel));
        i = i + 1;
    }
    r
}

/// How one `modprobe` came out: nothing more to say where it succeeded, else
/// an error with what it printed, trimmed.
pub fn module_outcome(module: &str, success: bool, stderr: &str) -> (r: Result<(), SysinitError>)
    ensures
        r is Ok <==> success,
        r matches Err(e) ==> e@ == (ErrorModel::Modprobe {
            module: module@,
            detail: crate::text::trim_text(stderr@),
        }),
{
    if success {
        Ok(())
    } else {
        Err(SysinitError::Modprobe { module: module.to_owned(), detail: trim(stderr) })
    }
}

/// The BDE/KNET device nodes and their majors. The Broadcom modules register
/// char majors but do not create device nodes themselves. Without the KNET
/// pair, soc_knet_init fails and SAI create_switch aborts NOT_SUPPORTED.
pub fn bde_dev_nodes() -> (r: [(&'static str, u32); 4])
    ensures
        r@[0].0@ == "/dev/linux-kernel-bde"@ && r@[0].1 == 127,
        r@[1].0@ == "/dev/linux-user-bde"@ && r@[1].1 == 126,
        r@[2].0@ == "/dev/linux-bcm-knet"@ && r@[2].1 == 122,
        r@[3].0@ == "/dev/linux-knet-cb"@ && r@[3].1 == 121,
{
    [
        ("/dev/linux-kernel-bde", 127u32),
        ("/dev/linux-user-bde", 126u32),
        ("/dev/linux-bcm-knet", 122u32),
        ("/dev/linux-knet-cb", 121u32),
    ]
}

// ------------------------------------------------------------------- MACs

/// ONIE TlvInfo EEPROM type code for the base MAC address TLV.
pub const ONIE_TLV_BASE_MAC: u8 = 0x24;

/// The base MAC in a run of TLV records from index `at` on, up to index `end`.
pub open spec fn tlv_mac(blob: Seq<u8>, at: int, end: int) -> Option<Seq<u8>>
    decreases end - at,
{
    if at + 2 > end || at < 0 {
        None
    } else if at + 2 + blob[at + 1] > end {
        None
    } else if blob[at] == ONIE_TLV_BASE_MAC && blob[at + 1] == 6 {
        Some(blob.subrange(at + 2, at + 8))
    } else {
        tlv_mac(blob, at + 2 + blob[at + 1], end)
    }
}

/// Does a blob begin with `"TlvInfo\0"`?
pub open spec fn has_magic(blob: Seq<u8>) -> bool {
    &&& blob[0] == 0x54
    &&& blob[1] == 0x6c
    &&& blob[2] == 0x76
    &&& blob[3] == 0x49
    &&& blob[4] == 0x6e
    &&& blob[5] == 0x66
    &&& blob[6] == 0x6f
    &&& blob[7] == 0
}

/// The base MAC (TLV 0x24) of an ONIE TlvInfo EEPROM blob.
/// Layout: 8-byte magic `"TlvInfo\0"`, version byte, big-endian u16 total
/// TLV length, then `type, length, value` records.
pub open spec fn onie_mac(blob: Seq<u8>) -> Option<Seq<u8>> {
    if blob.len() < 11 || !has_magic(blob) {
        None
    } else {
        let end = 11 + crate::bytes::word16(blob, 9);
        if end > blob.len() {
            None
        } else {
            tlv_mac(blob, 11, end)
        }
    }
}

/// Extract the base MAC (TLV 0x24) from an ONIE TlvInfo EEPROM blob.
pub fn parse_onie_base_mac(blob: &[u8]) -> (r: Option<[u8; 6]>)
    ensures
        crate::mac::mac_view(r) == onie_mac(blob@),
{
    let len: usize = blob.len();
    if len < 11 || blob[0] != 0x54 || blob[1] != 0x6c || blob[2] != 0x76 || blob[3] != 0x49
        || blob[4] != 0x6e || blob[5] != 0x66 || blob[6] != 0x6f || blob[7] != 0 {
        return None;
    }
    let end: usize = 11 + crate::bytes::read16(blob, 9) as usize;
    if end > len {
        return None;
    }
    let mut at: usize = 11;
    while at + 2 <= end
        invariant
            11 <= at <= end <= len <= usize::MAX,
            end <= 0x1_0010,
            len == blob@.len(),
            onie_mac(blob@) == tlv_mac(blob@, at as int, end as int),
        decreases end - at,
    {
        let size: usize = blob[at + 1] as usize;
        if at + 2 + size > end {
            return None;
        }
        if blob[at] == ONIE_TLV_BASE_MAC && size == 6 {
            return Some(crate::bytes::read_mac(blob, at + 2));
        }
        at = at + 2 + size;
    }
    None
}

/// Parse `aa:bb:cc:dd:ee:ff` (the `/sys/class/net/*/address` format).
pub fn parse_mac_text(text: &str) -> (r: Option<[u8; 6]>)
    ensures
        crate::mac::mac_view(r) == crate::mac::mac_value(crate::text::trim_text(text@)),
{
    parse_mac(&trim(text))
}

/// The byte that `i2cget` prints.
pub open spec fn i2c_byte(text: Seq<char>) -> Option<int> {
    let t = crate::text::trim_text(text);
    match crate::text::after_prefix(t, "0x"@) {
        Some(rest) => crate::text::unsigned_upto(rest, 16, 255),
        None => match crate::text::after_prefix(t, "0X"@) {
            Some(rest) => crate::text::unsigned_upto(rest, 16, 255),
            None => crate::text::unsigned_upto(t, 16, 255),
        },
    }
}

/// `i2cget` prints `0x1a`; accept a bare hex byte too.
pub fn parse_i2c_byte(text: &str) -> (r: Option<u8>)
    ensures
        match r {
            Some(b) => i2c_byte(text@) == Some(b as int),
            None => i2c_byte(text@) is None,
        },
{
    let text = trim(text);
    let digits = match strip_prefix(&text, "0x") {
        Some(rest) => rest,
        None => match strip_prefix(&text, "0X") {
            Some(rest) => rest,
            None => text,
        },
    };
    match parse_hex(&digits, 255) {
        Some(v) => Some(v as u8),
        None => None,
    }
}

/// The byte that `i2cget` prints, under the name the quirks' CPLD read-back
/// is pinned by.
pub fn parse_i2c_byte_for_test(text: &str) -> (r: Option<u8>)
    ensures
        match r {
            Some(b) => i2c_byte(text@) == Some(b as int),
            None => i2c_byte(text@) is None,
        },
{
    parse_i2c_byte(text)
}

/// A MAC usable as the switch source address: unicast and non-zero.
pub open spec fn is_usable(mac: Seq<u8>) -> bool {
    mac != Seq::new(6, |i: int| 0u8) && mac[0] % 2 == 0
}

/// A MAC usable as the switch source address: unicast and non-zero. A
/// blank EEPROM reads as zeros; treat that as "not found" so resolution
/// can fall through to the next source.
pub fn usable_mac(mac: [u8; 6]) -> (r: bool)
    ensures
        r == is_usable(mac@),
{
    let zero: bool = mac[0] == 0 && mac[1] == 0 && mac[2] == 0 && mac[3] == 0 && mac[4] == 0
        && mac[5] == 0;
    proof {
        let z = Seq::new(6, |i: int| 0u8);
        if zero {
            assert(mac@ =~= z);
        } else {
            assert(mac@[0] != z[0] || mac@[1] != z[1] || mac@[2] != z[2] || mac@[3] != z[3]
                || mac@[4] != z[4] || mac@[5] != z[5]);
        }
    }
    !zero && mac[0] % 2 == 0
}

// ----------------------------------------------------------------- BusMap

/// The kernel's bus numbers for the ones a manifest *declares*.
///
/// `child_bus_base` says which declared number means which (mux, channel):
/// declared `child_bus_base + N` is channel N of that mux. What number the
/// kernel gives that channel is its business: it depends on probe order
/// and on how many adapters registered first, and a device tree that
/// instantiates part of the topology can shift all of them. So bring-up
/// follows each mux's `channel-N` symlinks and records declared and actual
/// here; every consumer of a bus number resolves through it.
///
/// Unknown declared numbers resolve to themselves, so a platform whose
/// numbering already matches is unaffected.
#[derive(Debug, PartialEq, Eq)]
pub struct BusMap {
    pub map: OrdMap<u32, u32>,
    pub roots: OrdMap<String, u32>,
}

impl Default for BusMap {
    fn default() -> (r: BusMap)
        ensures
            r.wf(),
            r.map@ == Map::<u32, u32>::empty(),
            r.roots@ == Map::<Seq<char>, u32>::empty(),
    {
        BusMap { map: OrdMap::new(), roots: OrdMap::new() }
    }
}

/// The kernel bus number for a declared one.
pub open spec fn resolved(map: Map<u32, u32>, declared: u32) -> u32 {
    if map.dom().contains(declared) {
        map[declared]
    } else {
        declared
    }
}

/// The kernel bus number for a manifest bus reference.
pub open spec fn resolved_ref(
    map: Map<u32, u32>,
    roots: Map<Seq<char>, u32>,
    bus: BusRef,
) -> Option<u32> {
    match bus {
        BusRef::Number(n) => Some(resolved(map, n)),
        BusRef::Named(name) => if roots.dom().contains(name@) {
            Some(roots[name@])
        } else {
            None
        },
    }
}

/// Prefix marking a manifest `hwmon` identity as a *platform* device
/// rather than an i2c client: `platform:as4610_fan` addresses
/// `/sys/devices/platform/as4610_fan`.
pub const PLATFORM_HWMON_PREFIX: &'static str = "platform:";

/// A `<bus>-<addr>` identity with its bus number translated; anything not in
/// that shape as it is.
pub open spec fn resolved_hwmon(map: Map<u32, u32>, hwmon: Seq<char>) -> Seq<char> {
    if crate::text::begins_with(hwmon, PLATFORM_HWMON_PREFIX@) {
        hwmon
    } else {
        match crate::text::cut_text(hwmon, '-') {
            Some((bus, addr)) => match crate::text::unsigned_upto(bus, 10, u32::MAX as int) {
                Some(n) => crate::text::decimal_text(resolved(map, n as u32) as nat) + "-"@ + addr,
                None => hwmon,
            },
            None => hwmon,
        }
    }
}

/// The pairs, among the first `n`, that differ.
pub open spec fn differing(entries: Seq<(u32, u32)>, n: int) -> Seq<(u32, u32)>
    decreases n,
{
    if n <= 0 {
        Seq::empty()
    } else if entries[n - 1].0 != entries[n - 1].1 {
        differing(entries, n - 1).push(entries[n - 1])
    } else {
        differing(entries, n - 1)
    }
}

impl BusMap {
    pub open spec fn wf(&self) -> bool {
        self.map.wf() && self.roots.wf()
    }

    pub fn insert(&mut self, declared: u32, actual: u32)
        requires
            old(self).wf(),
        ensures
            final(self).wf(),
            final(self).map@ == old(self).map@.insert(declared, actual),
            final(self).roots == old(self).roots,
    {
        self.map.insert(declared, actual);
    }

    /// Record a named root adapter's kernel bus number.
    pub fn insert_root(&mut self, name: String, bus: u32)
        requires
            old(self).wf(),
        ensures
            final(self).wf(),
            final(self).roots@ == old(self).roots@.insert(name@, bus),
            final(self).map == old(self).map,
    {
        self.roots.insert(name, bus);
    }

    /// The kernel bus number for a declared one.
    pub fn resolve(&self, declared: u32) -> (r: u32)
        requires
            self.wf(),
        ensures
            r == resolved(self.map@, declared),
    {
        match self.map.get(&declared) {
            Some(actual) => *actual,
            None => declared,
        }
    }

    /// Resolve a manifest bus reference: a named root adapter, or a
    /// declared number translated through the map. `None` means the
    /// manifest named a root that does not exist.
    pub fn resolve_ref(&self, bus: &BusRef) -> (r: Option<u32>)
        requires
            self.wf(),
        ensures
            r == resolved_ref(self.map@, self.roots@, *bus),
    {
        match bus {
            BusRef::Number(n) => Some(self.resolve(*n)),
            BusRef::Named(name) => match self.roots.get(name) {
                Some(bus) => Some(*bus),
                None => None,
            },
        }
    }

    /// Translate a `<bus>-<addr>` sysfs identity (a manifest `hwmon`
    /// field, e.g. `"23-004d"`), keeping the address half verbatim.
    /// Anything not in that shape is passed through untouched.
    pub fn resolve_hwmon(&self, hwmon: &str) -> (r: String)
        requires
            self.wf(),
        ensures
            r@ == resolved_hwmon(self.map@, hwmon@),
    {
        // A platform device has no bus number to translate.
        if starts_with(hwmon, PLATFORM_HWMON_PREFIX) {
            return hwmon.to_owned();
        }
        match cut(hwmon, '-') {
            Some((bus, addr)) => match parse_decimal(&bus, u32::MAX as u64) {
                Some(declared) => cat3(
                    &decimal(self.resolve(declared as u32) as u64),
                    "-",
                    &addr,
                ),
                None => hwmon.to_owned(),
            },
            None => hwmon.to_owned(),
        }
    }

    /// Declared/actual pairs that differ: what a platform's manifest got
    /// wrong (or what a device tree moved).
    pub fn divergences(&self) -> (r: Vec<(u32, u32)>)
        ensures
            r@ == differing(self.map.entries@, self.map.entries@.len() as int),
    {
        let mut r: Vec<(u32, u32)> = Vec::new();
        let mut i: usize = 0;
        while i < self.map.entries.len()
            invariant
                i <= self.map.entries@.len(),
                r@ == differing(self.map.entries@, i as int),
            decreases self.map.entries@.len() - i,
        {
            let pair = (self.map.entries[i].0, self.map.entries[i].1);
            if pair.0 != pair.1 {
                r.push(pair);
            }
            i = i + 1;
        }
        r
    }
}

/// The sysfs directory a manifest `hwmon` identity names.
pub open spec fn hwmon_dir(hwmon: Seq<char>) -> Seq<char> {
    match crate::text::after_prefix(hwmon, PLATFORM_HWMON_PREFIX@) {
        Some(name) => "/sys/devices/platform/"@ + name,
        None => "/sys/bus/i2c/devices/"@ + hwmon,
    }
}

/// The sysfs directory a manifest `hwmon` identity names.
///
/// The usual form is an i2c client identity (`23-004d` is
/// `/sys/bus/i2c/devices/23-004d`). Some vendor drivers instead hang
/// their attributes off a platform device with an empty hwmon node
/// and those are named with the `platform:` prefix. The bus number in the i2c
/// form is the manifest's *declared* one, so resolve through `BusMap` first.
pub fn hwmon_device_dir(hwmon: &str) -> (r: String)
    ensures
        r@ == hwmon_dir(hwmon@),
{
    match strip_prefix(hwmon, PLATFORM_HWMON_PREFIX) {
        Some(name) => cat2("/sys/devices/platform/", &name),
        None => cat2("/sys/bus/i2c/devices/", hwmon),
    }
}

// ----------------------------------------------------------------- adapters

/// What one i2c instantiation pass did, for logs and diagnostics.
#[derive(Debug)]
pub struct I2cReport {
    pub root_bus: Option<u32>,
    pub created: Vec<String>,
    pub already_present: Vec<String>,
    /// Declared and actual bus numbers, from the muxes' `channel-N` links.
    pub buses: BusMap,
}

/// A report as mathematical values.
#[verifier::ext_equal]
pub struct ReportModel {
    pub root_bus: Option<u32>,
    pub created: Seq<Seq<char>>,
    pub already_present: Seq<Seq<char>>,
    pub map: Map<u32, u32>,
    pub roots: Map<Seq<char>, u32>,
}

impl View for I2cReport {
    type V = ReportModel;

    open spec fn view(&self) -> ReportModel {
        ReportModel {
            root_bus: self.root_bus,
            created: self.created.deep_view(),
            already_present: self.already_present.deep_view(),
            map: self.buses.map@,
            roots: self.buses.roots@,
        }
    }
}

/// One entry of the i2c device directory, with what it holds of the files the
/// bring-up reads.
#[derive(Debug)]
pub struct Entry {
    /// The entry's file name: `i2c-7`, `7-0050`.
    pub name: String,
    /// What its `name` file holds.
    pub adapter: Option<String>,
    /// What its `eeprom` file holds.
    pub eeprom: Option<Vec<u8>>,
}

/// The bus number of an entry that is an adapter whose name starts with
/// `prefix`.
pub open spec fn adapter_bus(e: Entry, prefix: Seq<char>) -> Option<u32> {
    match (crate::text::after_prefix(e.name@, "i2c-"@), e.adapter) {
        (Some(number), Some(name)) => match crate::text::unsigned_upto(
            number,
            10,
            u32::MAX as int,
        ) {
            Some(bus) => if crate::text::begins_with(crate::text::trim_text(name@), prefix) {
                Some(bus as u32)
            } else {
                None
            },
            None => None,
        },
        _ => None,
    }
}

/// A number put behind those that are not larger.
pub open spec fn insert_number(s: Seq<u32>, n: u32) -> Seq<u32>
    decreases s.len(),
{
    if s.len() == 0 || n >= s.last() {
        s.push(n)
    } else {
        insert_number(s.drop_last(), n).push(s.last())
    }
}

/// The bus numbers of the matching adapters among the first `n` entries, in
/// rising order.
pub open spec fn matching_buses(entries: Seq<Entry>, prefix: Seq<char>, n: int) -> Seq<u32>
    decreases n,
{
    if n <= 0 {
        Seq::empty()
    } else {
        match adapter_bus(entries[n - 1], prefix) {
            Some(bus) => insert_number(matching_buses(entries, prefix, n - 1), bus),
            None => matching_buses(entries, prefix, n - 1),
        }
    }
}

/// The `instance`-th adapter whose name starts with `prefix`.
pub open spec fn adapter_at(entries: Seq<Entry>, prefix: Seq<char>, instance: u32) -> Option<u32> {
    let buses = matching_buses(entries, prefix, entries.len() as int);
    if instance < buses.len() {
        Some(buses[instance as int])
    } else {
        None
    }
}

fn put_number(s: &mut Vec<u32>, n: u32)
    ensures
        final(s)@ == insert_number(old(s)@, n),
    decreases old(s)@.len(),
{
    let ghost before = s@;
    let len: usize = s.len();
    if len == 0 || n >= s[len - 1] {
        s.push(n);
    } else {
        match s.pop() {
            Some(last) => {
                assert(s@ =~= before.drop_last());
                put_number(s, n);
                s.push(last);
            },
            None => {},
        }
    }
}

fn entry_bus(e: &Entry, prefix: &str) -> (r: Option<u32>)
    ensures
        r == adapter_bus(*e, prefix@),
{
    match (strip_prefix(&e.name, "i2c-"), &e.adapter) {
        (Some(number), Some(name)) => match parse_decimal(&number, u32::MAX as u64) {
            Some(bus) => if starts_with(&trim(name), prefix) {
                Some(bus as u32)
            } else {
                None
            },
            None => None,
        },
        _ => None,
    }
}

/// The roots that the first `n` declared ones make, or the prefix of the first
/// that no adapter matches. `root_adapter = "..."` is shorthand for one root
/// named `root`.
pub open spec fn roots_of(
    i2c: I2cSection,
    entries: Seq<Entry>,
    n: int,
) -> Result<Map<Seq<char>, u32>, Seq<char>>
    decreases n,
{
    if n <= 0 {
        match i2c.root_adapter {
            Some(prefix) => match adapter_at(entries, prefix@, 0) {
                Some(bus) => Ok(Map::empty().insert(DEFAULT_ROOT_NAME@, bus)),
                None => Err(prefix@),
            },
            None => Ok(Map::empty()),
        }
    } else {
        match roots_of(i2c, entries, n - 1) {
            Ok(m) => match adapter_at(
                entries,
                i2c.roots@[n - 1].adapter@,
                i2c.roots@[n - 1].instance,
            ) {
                Some(bus) => Ok(m.insert(i2c.roots@[n - 1].name@, bus)),
                None => Err(i2c.roots@[n - 1].adapter@),
            },
            Err(e) => Err(e),
        }
    }
}

proof fn lemma_roots_fail_early(i2c: I2cSection, entries: Seq<Entry>, n: int, m: int)
    requires
        0 <= n <= m,
        roots_of(i2c, entries, n) is Err,
    ensures
        roots_of(i2c, entries, m) == roots_of(i2c, entries, n),
    decreases m,
{
    if n < m {
        lemma_roots_fail_early(i2c, entries, n, m - 1);
    }
}

/// The first declared root of a name, from the `n`th on.
pub open spec fn named_root(i2c: I2cSection, name: Seq<char>, n: int) -> Option<int>
    decreases i2c.roots@.len() - n,
{
    if n >= i2c.roots@.len() {
        None
    } else if i2c.roots@[n].name@ == name {
        Some(n)
    } else {
        named_root(i2c, name, n + 1)
    }
}

/// The bus of a root that a manifest names.
pub open spec fn manifest_root(
    i2c: I2cSection,
    entries: Seq<Entry>,
    name: Seq<char>,
) -> Option<u32> {
    if name == DEFAULT_ROOT_NAME@ && i2c.root_adapter is Some {
        adapter_at(entries, i2c.root_adapter->0@, 0)
    } else {
        match named_root(i2c, name, 0) {
            Some(i) => adapter_at(entries, i2c.roots@[i].adapter@, i2c.roots@[i].instance),
            None => None,
        }
    }
}

/// `<bus>-<addr>` as sysfs writes it.
pub open spec fn client_text(bus: u32, address: u32) -> Seq<char> {
    crate::text::decimal_text(bus as nat) + "-"@ + crate::text::hex_text(address as nat, 4)
}

/// `<bus>-<addr>` as sysfs writes it.
pub fn client_name(bus: u32, address: u32) -> (r: String)
    ensures
        r@ == client_text(bus, address),
{
    cat3(&decimal(bus as u64), "-", &hex(address as u64, 4))
}

/// A hex byte as i2c-tools write it: `0x1a`.
pub open spec fn hex_byte(n: u32) -> Seq<char> {
    "0x"@ + crate::text::hex_text(n as nat, 2)
}

fn hex_arg(n: u32) -> (r: String)
    ensures
        r@ == hex_byte(n),
{
    cat2("0x", &hex(n as u64, 2))
}

/// The declared syseeprom, from the `n`th device on.
pub open spec fn syseeprom(devices: Seq<I2cDevice>, n: int) -> Option<int>
    decreases devices.len() - n,
{
    if n >= devices.len() {
        None
    } else if devices[n].purpose@ == "syseeprom"@ {
        Some(n)
    } else {
        syseeprom(devices, n + 1)
    }
}

/// The base MAC in an entry's EEPROM.
pub open spec fn entry_mac(e: Entry) -> Option<Seq<u8>> {
    match e.eeprom {
        Some(blob) => onie_mac(blob@),
        None => None,
    }
}

/// The base MAC in the first entry, from the `n`th on, of a name that holds
/// one.
pub open spec fn mac_named(entries: Seq<Entry>, name: Seq<char>, n: int) -> Option<Seq<u8>>
    decreases entries.len() - n,
{
    if n >= entries.len() {
        None
    } else if entries[n].name@ == name && entry_mac(entries[n]) is Some {
        entry_mac(entries[n])
    } else {
        mac_named(entries, name, n + 1)
    }
}

/// The base MAC in the first entry, from the `n`th on, whose name ends so and
/// that holds one.
pub open spec fn mac_ending(entries: Seq<Entry>, suffix: Seq<char>, n: int) -> Option<Seq<u8>>
    decreases entries.len() - n,
{
    if n >= entries.len() {
        None
    } else if crate::text::finishes_with(entries[n].name@, suffix) && entry_mac(entries[n])
        is Some {
        entry_mac(entries[n])
    } else {
        mac_ending(entries, suffix, n + 1)
    }
}

/// The base MAC in the syseeprom: at the declared bus, else at any bus at the
/// same address.
pub open spec fn syseeprom_mac(devices: Seq<I2cDevice>, entries: Seq<Entry>) -> Option<Seq<u8>> {
    match syseeprom(devices, 0) {
        Some(i) => {
            let declared = match devices[i].bus {
                BusRef::Number(bus) => mac_named(entries, client_text(bus, devices[i].address), 0),
                BusRef::Named(_) => None,
            };
            match declared {
                Some(mac) => Some(mac),
                None => mac_ending(
                    entries,
                    "-"@ + crate::text::hex_text(devices[i].address as nat, 4),
                    0,
                ),
            }
        },
        None => None,
    }
}

/// The base MAC for the switch: the syseeprom's where it is usable, else the
/// management netdev's where that is.
pub open spec fn chosen_mac(
    devices: Seq<I2cDevice>,
    has_management: bool,
    entries: Seq<Entry>,
    netdev: Option<Seq<char>>,
) -> Option<Seq<u8>> {
    let eeprom = syseeprom_mac(devices, entries);
    if eeprom is Some && is_usable(eeprom->0) {
        eeprom
    } else if has_management && netdev is Some {
        let mac = crate::mac::mac_value(crate::text::trim_text(netdev->0));
        if mac is Some && is_usable(mac->0) {
            mac
        } else {
            None
        }
    } else {
        None
    }
}

fn eeprom_mac(e: &Entry) -> (r: Option<[u8; 6]>)
    ensures
        crate::mac::mac_view(r) == entry_mac(*e),
{
    match &e.eeprom {
        Some(blob) => parse_onie_base_mac(blob.as_slice()),
        None => None,
    }
}

fn find_syseeprom(devices: &Vec<I2cDevice>) -> (r: Option<usize>)
    ensures
        match r {
            Some(i) => i < devices@.len() && syseeprom(devices@, 0) == Some(i as int),
            None => syseeprom(devices@, 0) is None,
        },
{
    let mut i: usize = 0;
    while i < devices.len()
        invariant
            i <= devices@.len(),
            syseeprom(devices@, 0) == syseeprom(devices@, i as int),
        decreases devices@.len() - i,
    {
        if same_text(&devices[i].purpose, "syseeprom") {
            return Some(i);
        }
        i = i + 1;
    }
    None
}

fn find_mac_named(entries: &Vec<Entry>, name: &str) -> (r: Option<[u8; 6]>)
    ensures
        crate::mac::mac_view(r) == mac_named(entries@, name@, 0),
{
    let mut i: usize = 0;
    while i < entries.len()
        invariant
            i <= entries@.len(),
            mac_named(entries@, name@, 0) == mac_named(entries@, name@, i as int),
        decreases entries@.len() - i,
    {
        if same_text(&entries[i].name, name) {
            let mac = eeprom_mac(&entries[i]);
            if mac.is_some() {
                return mac;
            }
        }
        i = i + 1;
    }
    None
}

fn find_mac_ending(entries: &Vec<Entry>, suffix: &str) -> (r: Option<[u8; 6]>)
    ensures
        crate::mac::mac_view(r) == mac_ending(entries@, suffix@, 0),
{
    let mut i: usize = 0;
    while i < entries.len()
        invariant
            i <= entries@.len(),
            mac_ending(entries@, suffix@, 0) == mac_ending(entries@, suffix@, i as int),
        decreases entries@.len() - i,
    {
        if ends_with(&entries[i].name, suffix) {
            let mac = eeprom_mac(&entries[i]);
            if mac.is_some() {
                return mac;
            }
        }
        i = i + 1;
    }
    None
}

/// The sysfs that bring-up works on, at its root (`/` in production).
#[derive(Debug)]
pub struct Sysfs {
    pub root: String,
}

/// Does a path lead to the root of the file system? It starts there, and no
/// piece of it names anything: repeated slashes and `.` do not.
pub open spec fn is_root(path: Seq<char>) -> bool {
    crate::platform::has_root(path) && forall|i: int|
        0 <= i < crate::text::split_text(path, '/').len() ==> !crate::platform::names_something(
            #[trigger] crate::text::split_text(path, '/')[i],
        )
}

fn leads_to_root(path: &str) -> (r: bool)
    ensures
        r == is_root(path@),
{
    if !is_rooted(path) {
        return false;
    }
    let parts = split(path, '/');
    let ghost all = crate::text::split_text(path@, '/');
    let mut i: usize = 0;
    while i < parts.len()
        invariant
            i <= parts@.len(),
            all == parts.deep_view(),
            all == crate::text::split_text(path@, '/'),
            forall|j: int| 0 <= j < i ==> !crate::platform::names_something(#[trigger] all[j]),
        decreases parts@.len() - i,
    {
        assert(all[i as int] == parts@[i as int]@);
        if !parts[i].as_str().is_empty() && !same_text(parts[i].as_str(), ".") {
            return false;
        }
        i = i + 1;
    }
    true
}

impl Sysfs {
    pub fn system() -> (r: Sysfs)
        ensures
            r.root@ == "/"@,
    {
        Sysfs { root: "/".to_owned() }
    }

    pub fn at(root: String) -> (r: Sysfs)
        ensures
            r.root == root,
    {
        Sysfs { root }
    }

    /// Is this the running system, and not a tree of files?
    pub fn is_system(&self) -> (r: bool)
        ensures
            r == is_root(self.root@),
    {
        leads_to_root(&self.root)
    }

    /// The i2c device directory.
    pub fn i2c_dev_dir(&self) -> (r: String)
        ensures
            r@ == crate::platform::join_path_text(self.root@, "sys/bus/i2c/devices"@),
    {
        join_path(&self.root, "sys/bus/i2c/devices")
    }

    /// Where a netdev's address stands; an absolute device name replaces
    /// the path to it.
    pub fn netdev_address(&self, dev: &str) -> (r: String)
        ensures
            r@ == crate::platform::join_path_text(
                crate::platform::join_path_text(
                    crate::platform::join_path_text(self.root@, "sys/class/net"@),
                    dev@,
                ),
                "address"@,
            ),
    {
        join_path(&join_path(&join_path(&self.root, "sys/class/net"), dev), "address")
    }

    /// Find the bus number of the adapter whose name starts with `prefix`
    /// (PCI SMBus adapter numbering varies between boots), among the entries
    /// of the i2c device directory.
    pub fn find_root_adapter(&self, entries: &Vec<Entry>, prefix: &str) -> (r: Result<
        u32,
        SysinitError,
    >)
        ensures
            match r {
                Ok(bus) => adapter_at(entries@, prefix@, 0) == Some(bus),
                Err(e) => adapter_at(entries@, prefix@, 0) is None && e@
                    == ErrorModel::RootAdapterNotFound(prefix@),
            },
    {
        self.find_root_adapter_instance(entries, prefix, 0)
    }

    /// The `instance`-th adapter whose name starts with `prefix`, counting
    /// in bus-number order. SoC i2c controllers share one driver name, so
    /// a prefix alone cannot tell `i2c0` from `i2c1`.
    pub fn find_root_adapter_instance(
        &self,
        entries: &Vec<Entry>,
        prefix: &str,
        instance: u32,
    ) -> (r: Result<u32, SysinitError>)
        ensures
            match r {
                Ok(bus) => adapter_at(entries@, prefix@, instance) == Some(bus),
                Err(e) => adapter_at(entries@, prefix@, instance) is None && e@
                    == ErrorModel::RootAdapterNotFound(prefix@),
            },
    {
        let mut buses: Vec<u32> = Vec::new();
        let mut i: usize = 0;
        while i < entries.len()
            invariant
                i <= entries@.len(),
                buses@ == matching_buses(entries@, prefix@, i as int),
            decreases entries@.len() - i,
        {
            match entry_bus(&entries[i], prefix) {
                Some(bus) => {
                    put_number(&mut buses, bus);
                },
                None => {},
            }
            i = i + 1;
        }
        if (instance as u64) < buses.len() as u64 {
            Ok(buses[instance as usize])
        } else {
            Err(SysinitError::RootAdapterNotFound(prefix.to_owned()))
        }
    }

    /// Locate every declared root adapter. `root_adapter = "..."` is
    /// shorthand for one root named `root`; `[[hardware.i2c.root]]`
    /// entries name theirs and disambiguate same-named adapters by
    /// instance.
    pub fn find_roots(&self, i2c: &I2cSection, entries: &Vec<Entry>) -> (r: Result<
        OrdMap<String, u32>,
        SysinitError,
    >)
        ensures
            match r {
                Ok(m) => m.wf() && roots_of(*i2c, entries@, i2c.roots@.len() as int) == Ok::<
                    Map<Seq<char>, u32>,
                    Seq<char>,
                >(m@),
                Err(e) => roots_of(*i2c, entries@, i2c.roots@.len() as int) matches Err(prefix)
                    && e@ == ErrorModel::RootAdapterNotFound(prefix),
            },
    {
        let mut roots: OrdMap<String, u32> = OrdMap::new();
        match &i2c.root_adapter {
            Some(prefix) => match self.find_root_adapter(entries, prefix) {
                Ok(bus) => {
                    roots.insert(DEFAULT_ROOT_NAME.to_owned(), bus);
                },
                Err(e) => {
                    proof {
                        lemma_roots_fail_early(*i2c, entries@, 0, i2c.roots@.len() as int);
                    }
                    return Err(e);
                },
            },
            None => {},
        }
        let mut i: usize = 0;
        while i < i2c.roots.len()
            invariant
                i <= i2c.roots@.len(),
                roots.wf(),
                roots_of(*i2c, entries@, i as int) == Ok::<Map<Seq<char>, u32>, Seq<char>>(
                    roots@,
                ),
            decreases i2c.roots@.len() - i,
        {
            let root = &i2c.roots[i];
            match self.find_root_adapter_instance(entries, &root.adapter, root.instance) {
                Ok(bus) => {
                    roots.insert(root.name.clone(), bus);
                },
                Err(e) => {
                    proof {
                        lemma_roots_fail_early(*i2c, entries@, i + 1, i2c.roots@.len() as int);
                    }
                    return Err(e);
                },
            }
            i = i + 1;
        }
        Ok(roots)
    }

    /// Locate a named root adapter declared by a manifest's i2c section,
    /// without instantiating anything. syncd needs this for quirks that
    /// poke a CPLD before the datapath exists: pmon owns topology
    /// instantiation, and it has not run yet at that point.
    pub fn find_manifest_root(&self, i2c: &I2cSection, entries: &Vec<Entry>, name: &str) -> (r:
        Option<u32>)
        ensures
            r == manifest_root(*i2c, entries@, name@),
    {
        if same_text(name, DEFAULT_ROOT_NAME) {
            match &i2c.root_adapter {
                Some(prefix) => {
                    return match self.find_root_adapter(entries, prefix) {
                        Ok(bus) => Some(bus),
                        Err(_) => None,
                    };
                },
                None => {},
            }
        }
        let mut i: usize = 0;
        while i < i2c.roots.len()
            invariant
                i <= i2c.roots@.len(),
                !(name@ == DEFAULT_ROOT_NAME@ && i2c.root_adapter is Some),
                named_root(*i2c, name@, 0) == named_root(*i2c, name@, i as int),
            decreases i2c.roots@.len() - i,
        {
            let root = &i2c.roots[i];
            if same_text(&root.name, name) {
                return match self.find_root_adapter_instance(
                    entries,
                    &root.adapter,
                    root.instance,
                ) {
                    Ok(bus) => Some(bus),
                    Err(_) => None,
                };
            }
            i = i + 1;
        }
        None
    }

    /// Base MAC from the manifest's `syseeprom` i2c device, if that device
    /// exists in sysfs (pmon may not have instantiated the topology yet).
    ///
    /// syncd calls this without a `BusMap` (it does not instantiate the
    /// topology), so the declared bus is only the first guess. When the
    /// EEPROM sits behind a mux whose kernel numbering differs, fall back
    /// to any device at the same address whose blob parses as ONIE
    /// TlvInfo; the magic makes a false positive implausible.
    pub fn syseeprom_base_mac(&self, i2c: &I2cSection, entries: &Vec<Entry>) -> (r: Option<
        [u8; 6],
    >)
        ensures
            crate::mac::mac_view(r) == syseeprom_mac(i2c.devices@, entries@),
    {
        match find_syseeprom(&i2c.devices) {
            Some(i) => {
                let dev = &i2c.devices[i];
                let declared = match &dev.bus {
                    BusRef::Number(bus) => find_mac_named(
                        entries,
                        &client_name(*bus, dev.address),
                    ),
                    BusRef::Named(_) => None,
                };
                if declared.is_some() {
                    return declared;
                }
                find_mac_ending(entries, &cat2("-", &hex(dev.address as u64, 4)))
            },
            None => None,
        }
    }

    /// The base MAC for the switch (`SAI_SWITCH_ATTR_SRC_MAC_ADDRESS`):
    /// the ONIE syseeprom's TLV 0x24 when readable, else the management
    /// netdev's address (`netdev` is what its address file holds). Some
    /// vendor SAIs have no working fallback of their own, so syncd resolves
    /// one here and passes it explicitly.
    pub fn base_mac(
        &self,
        manifest: &Manifest,
        entries: &Vec<Entry>,
        netdev: &Option<String>,
    ) -> (r: Option<[u8; 6]>)
        ensures
            crate::mac::mac_view(r) == chosen_mac(
                manifest.hardware.i2c.devices@,
                manifest.management is Some,
                entries@,
                crate::text::option_text(*netdev),
            ),
    {
        match self.syseeprom_base_mac(&manifest.hardware.i2c, entries) {
            Some(mac) => {
                if usable_mac(mac) {
                    return Some(mac);
                }
            },
            None => {},
        }
        match (&manifest.management, netdev) {
            (Some(_), Some(text)) => match parse_mac_text(text) {
                Some(mac) => if usable_mac(mac) {
                    Some(mac)
                } else {
                    None
                },
                None => None,
            },
            _ => None,
        }
    }
}

// ------------------------------------------------------------ mux channels

/// The last component of a path.
pub open spec fn base_name(path: Seq<char>) -> Seq<char>
    decreases path.len(),
{
    if path.len() == 0 || path.last() == '/' || path.last() == '\\' {
        Seq::empty()
    } else {
        base_name(path.drop_last()).push(path.last())
    }
}

/// Where the last component begins, the rest of the path is it.
proof fn lemma_base_name(path: Seq<char>, start: int)
    requires
        0 <= start <= path.len(),
        start == 0 || path[start - 1] == '/' || path[start - 1] == '\\',
        forall|j: int| start <= j < path.len() ==> path[j] != '/' && path[j] != '\\',
    ensures
        base_name(path) == path.skip(start),
    decreases path.len(),
{
    if start == path.len() {
        assert(path.skip(start) =~= Seq::empty());
    } else {
        lemma_base_name(path.drop_last(), start);
        assert(path.drop_last().skip(start).push(path.last()) =~= path.skip(start));
    }
}

fn last_component(path: &str) -> (r: String)
    ensures
        r@ == base_name(path@),
{
    let chars = crate::text::chars_of(path);
    let len: usize = chars.len();
    let mut start: usize = len;
    while start > 0 && chars[start - 1] != '/' && chars[start - 1] != '\\'
        invariant
            start <= len == chars@.len(),
            forall|j: int| start <= j < len ==> chars@[j] != '/' && chars@[j] != '\\',
        decreases start,
    {
        start = start - 1;
    }
    proof {
        lemma_base_name(chars@, start as int);
    }
    let r = crate::text::text_of(chars.as_slice(), start, len);
    assert(r@ =~= chars@.skip(start as int));
    r
}

/// One file in a mux's own device directory: its name, and where it links to
/// (or, for a plain file, what it holds).
#[derive(Debug)]
pub struct Link {
    pub name: String,
    pub target: Option<String>,
}

/// The channel and the bus that a `channel-N` link names.
pub open spec fn channel_of(l: Link) -> Option<(u32, u32)> {
    match (crate::text::after_prefix(l.name@, "channel-"@), l.target) {
        (Some(number), Some(target)) => match (
            crate::text::unsigned_upto(number, 10, u32::MAX as int),
            crate::text::after_prefix(base_name(crate::text::trim_text(target@)), "i2c-"@),
        ) {
            (Some(channel), Some(bus)) => match crate::text::unsigned_upto(
                bus,
                10,
                u32::MAX as int,
            ) {
                Some(n) => Some((channel as u32, n as u32)),
                None => None,
            },
            _ => None,
        },
        _ => None,
    }
}

fn link_channel(l: &Link) -> (r: Option<(u32, u32)>)
    ensures
        r == channel_of(*l),
{
    match (strip_prefix(&l.name, "channel-"), &l.target) {
        (Some(number), Some(target)) => match (
            parse_decimal(&number, u32::MAX as u64),
            strip_prefix(&last_component(&trim(target)), "i2c-"),
        ) {
            (Some(channel), Some(bus)) => match parse_decimal(&bus, u32::MAX as u64) {
                Some(n) => Some((channel as u32, n as u32)),
                None => None,
            },
            _ => None,
        },
        _ => None,
    }
}

/// A pair put behind those that are not larger.
pub open spec fn insert_pair(s: Seq<(u32, u32)>, p: (u32, u32)) -> Seq<(u32, u32)>
    decreases s.len(),
{
    if s.len() == 0 || p.0 > s.last().0 || (p.0 == s.last().0 && p.1 >= s.last().1) {
        s.push(p)
    } else {
        insert_pair(s.drop_last(), p).push(s.last())
    }
}

/// The channels and buses that the first `n` links name, in rising order.
pub open spec fn channels_of(links: Seq<Link>, n: int) -> Seq<(u32, u32)>
    decreases n,
{
    if n <= 0 {
        Seq::empty()
    } else {
        match channel_of(links[n - 1]) {
            Some(p) => insert_pair(channels_of(links, n - 1), p),
            None => channels_of(links, n - 1),
        }
    }
}

fn put_pair(s: &mut Vec<(u32, u32)>, p: (u32, u32))
    ensures
        final(s)@ == insert_pair(old(s)@, p),
    decreases old(s)@.len(),
{
    let ghost before = s@;
    let len: usize = s.len();
    let fits: bool = if len == 0 {
        true
    } else {
        let last = s[len - 1];
        p.0 > last.0 || (p.0 == last.0 && p.1 >= last.1)
    };
    if fits {
        s.push(p);
    } else {
        match s.pop() {
            Some(last) => {
                assert(s@ =~= before.drop_last());
                put_pair(s, p);
                s.push(last);
            },
            None => {},
        }
    }
}

/// The kernel bus numbers behind a mux's channels, from the
/// `channel-N` symlinks `i2c-mux.c` creates on the mux's own device
/// (`/sys/bus/i2c/devices/<parent>-<addr>/channel-0 -> ../../i2c-7`).
/// Present for both device-tree and `new_device` instantiation.
pub fn mux_child_buses(links: &Vec<Link>) -> (r: Vec<(u32, u32)>)
    ensures
        r@ == channels_of(links@, links@.len() as int),
{
    let mut r: Vec<(u32, u32)> = Vec::new();
    let mut i: usize = 0;
    while i < links.len()
        invariant
            i <= links@.len(),
            r@ == channels_of(links@, i as int),
        decreases links@.len() - i,
    {
        match link_channel(&links[i]) {
            Some(p) => {
                put_pair(&mut r, p);
            },
            None => {},
        }
        i = i + 1;
    }
    r
}

/// The bus map with the first `n` channels of a mux recorded. Channels beyond
/// the mux's declared width are ignored, so a wrong `channels` count cannot
/// claim bus numbers the manifest never declared.
pub open spec fn with_channels(
    map: Map<u32, u32>,
    mux: I2cMux,
    list: Seq<(u32, u32)>,
    n: int,
) -> Map<u32, u32>
    decreases n,
{
    if n <= 0 {
        map
    } else if list[n - 1].0 < mux.channels {
        with_channels(map, mux, list, n - 1).insert(
            (mux.child_bus_base + list[n - 1].0) as u32,
            list[n - 1].1,
        )
    } else {
        with_channels(map, mux, list, n - 1)
    }
}

// ------------------------------------------------------------ instantiation

/// Where an instantiation pass stands.
#[derive(Debug, Clone, Copy, PartialEq, Eq, Structural)]
pub enum Stage {
    /// A pre-write is being done.
    Write(usize),
    /// It is being looked whether a mux is there.
    MuxProbe(usize),
    MuxCreate(usize),
    /// A mux's channel links are being read.
    MuxLinks(usize),
    DeviceProbe(usize),
    DeviceCreate(usize),
    Finished,
}

/// What an instantiation pass wants done next.
#[derive(Debug)]
pub enum Action {
    /// The raw write of a pre-write, by its number, on a bus.
    Write { bus: u32, index: usize },
    /// Does `<bus>-<addr>` already exist (previous run, or udev)?
    Probe { bus: u32, address: u32 },
    /// Bind a driver through the bus's `new_device`. After a mux, give the
    /// kernel a moment to create the child buses before going on.
    Create { bus: u32, driver: String, address: u32 },
    /// Read the channel links of a mux.
    Links { bus: u32, address: u32 },
    Finished,
}

/// An action as mathematical values.
pub enum ActionModel {
    Write { bus: u32, index: usize },
    Probe { bus: u32, address: u32 },
    Create { bus: u32, driver: Seq<char>, address: u32 },
    Links { bus: u32, address: u32 },
    Finished,
}

impl View for Action {
    type V = ActionModel;

    open spec fn view(&self) -> ActionModel {
        match *self {
            Action::Write { bus, index } => ActionModel::Write { bus, index },
            Action::Probe { bus, address } => ActionModel::Probe { bus, address },
            Action::Create { bus, driver, address } => ActionModel::Create {
                bus,
                driver: driver@,
                address,
            },
            Action::Links { bus, address } => ActionModel::Links { bus, address },
            Action::Finished => ActionModel::Finished,
        }
    }
}

/// How an action came out.
#[derive(Debug)]
pub enum Event {
    /// What was to be written or created is.
    Done,
    /// It was refused, with the reason.
    Refused(String),
    /// The tool that does it could not be started, with the reason.
    NotStarted(String),
    /// Whether what was probed is there.
    Present(bool),
    /// The files in a mux's device directory.
    Links(Vec<Link>),
}

/// Is an event an answer to what a stage asked?
pub open spec fn answers(stage: Stage, event: Event) -> bool {
    match stage {
        Stage::Write(_) => event is Done || event is Refused || event is NotStarted,
        Stage::MuxProbe(_) => event is Present,
        Stage::MuxCreate(_) => event is Done || event is Refused,
        Stage::MuxLinks(_) => event is Links,
        Stage::DeviceProbe(_) => event is Present,
        Stage::DeviceCreate(_) => event is Done || event is Refused,
        Stage::Finished => false,
    }
}

/// An instantiation pass: what it has done, where it stands, the bus of what
/// it is doing, and whether it works on the running system.
#[derive(Debug)]
pub struct Bringup {
    pub report: I2cReport,
    pub stage: Stage,
    pub bus: u32,
    pub system: bool,
}

/// Where a pass goes on, or why it ends.
pub enum Next {
    At { stage: Stage, bus: u32, action: ActionModel },
    Failed(ErrorModel),
}

/// The error for a bus reference that names no declared root.
pub open spec fn unresolved(what: Seq<char>, bus: BusRef) -> ErrorModel {
    ErrorModel::I2c {
        action: "resolve"@,
        bus: 0,
        detail: what + " references root "@ + crate::schema::bus_ref_text(bus)
            + " but no such root adapter is declared"@,
    }
}

/// The label of a mux on its parent bus.
pub open spec fn mux_label(mux: I2cMux, bus: u32) -> Seq<char> {
    "mux "@ + device_label(mux.name@, mux.driver@, bus, mux.address)
}

/// The label of a device on its bus.
pub open spec fn device_label(
    name: Seq<char>,
    driver: Seq<char>,
    bus: u32,
    address: u32,
) -> Seq<char> {
    name + " ("@ + driver + "@"@ + crate::text::decimal_text(bus as nat) + "-"@ + hex_byte(address)
        + ")"@
}

fn label(name: &str, driver: &str, bus: u32, address: u32) -> (r: String)
    ensures
        r@ == device_label(name@, driver@, bus, address),
{
    let mut r = cat6(name, " (", driver, "@", &decimal(bus as u64), "-");
    r.append(&hex_arg(address));
    r.append(")");
    r
}

/// What is looked at from the `i`th device on.
pub open spec fn at_device(i2c: I2cSection, r: ReportModel, i: usize) -> Next {
    if i >= i2c.devices@.len() {
        Next::At { stage: Stage::Finished, bus: 0, action: ActionModel::Finished }
    } else {
        let d = i2c.devices@[i as int];
        match resolved_ref(r.map, r.roots, d.bus) {
            Some(bus) => Next::At {
                stage: Stage::DeviceProbe(i),
                bus,
                action: ActionModel::Probe { bus, address: d.address },
            },
            None => Next::Failed(unresolved(d.purpose@, d.bus)),
        }
    }
}

/// What is looked at from the `i`th mux on. Muxes come in declaration order,
/// and a mux may hang off another mux's channel, so each one's parent is
/// resolved through the map built so far.
pub open spec fn at_mux(i2c: I2cSection, r: ReportModel, i: usize) -> Next {
    if i >= i2c.muxes@.len() {
        at_device(i2c, r, 0)
    } else {
        let m = i2c.muxes@[i as int];
        match resolved_ref(r.map, r.roots, m.parent_bus) {
            Some(bus) => Next::At {
                stage: Stage::MuxProbe(i),
                bus,
                action: ActionModel::Probe { bus, address: m.address },
            },
            None => Next::Failed(unresolved(m.name@, m.parent_bus)),
        }
    }
}

/// What is written from the `i`th pre-write on.
pub open spec fn at_write(i2c: I2cSection, r: ReportModel, i: usize) -> Next {
    if i >= i2c.pre_writes@.len() {
        at_mux(i2c, r, 0)
    } else {
        let w = i2c.pre_writes@[i as int];
        match resolved_ref(r.map, r.roots, w.bus) {
            Some(bus) => Next::At {
                stage: Stage::Write(i),
                bus,
                action: ActionModel::Write { bus, index: i },
            },
            None => Next::Failed(unresolved("pre_write"@, w.bus)),
        }
    }
}

/// The error of a device that could not be created.
pub open spec fn create_error(driver: Seq<char>, bus: u32, address: u32, e: Seq<char>) -> ErrorModel {
    ErrorModel::I2c {
        action: "new_device"@,
        bus,
        detail: driver + "@"@ + hex_byte(address) + ": "@ + e,
    }
}

/// The report after an event.
pub open spec fn report_after(
    i2c: I2cSection,
    r: ReportModel,
    stage: Stage,
    bus: u32,
    event: Event,
) -> ReportModel {
    match (stage, event) {
        (Stage::MuxProbe(i), Event::Present(true)) => ReportModel {
            already_present: r.already_present.push(mux_label(i2c.muxes@[i as int], bus)),
            ..r
        },
        (Stage::MuxCreate(i), Event::Done) => ReportModel {
            created: r.created.push(mux_label(i2c.muxes@[i as int], bus)),
            ..r
        },
        (Stage::MuxLinks(i), Event::Links(links)) => {
            let list = channels_of(links@, links@.len() as int);
            ReportModel {
                map: with_channels(r.map, i2c.muxes@[i as int], list, list.len() as int),
                ..r
            }
        },
        (Stage::DeviceProbe(i), Event::Present(true)) => {
            let d = i2c.devices@[i as int];
            ReportModel {
                already_present: r.already_present.push(
                    device_label(d.purpose@, d.driver@, bus, d.address),
                ),
                ..r
            }
        },
        (Stage::DeviceCreate(i), Event::Done) => {
            let d = i2c.devices@[i as int];
            ReportModel {
                created: r.created.push(device_label(d.purpose@, d.driver@, bus, d.address)),
                ..r
            }
        },
        _ => r,
    }
}

/// The error of a refused pre-write: on the running system what the tool
/// said, behind what the write is for; in a tree of files the bare reason.
pub open spec fn write_error(
    write: I2cWrite,
    system: bool,
    bus: u32,
    e: Seq<char>,
) -> ErrorModel {
    ErrorModel::I2c {
        action: "raw_write"@,
        bus,
        detail: if system {
            write.purpose@ + ": "@ + crate::text::trim_text(e)
        } else {
            e
        },
    }
}

/// Where a pass goes on after an event, with the report that the event left.
pub open spec fn next_after(
    i2c: I2cSection,
    system: bool,
    r: ReportModel,
    stage: Stage,
    bus: u32,
    event: Event,
) -> Next {
    match stage {
        Stage::Write(i) => match event {
            Event::Refused(e) => Next::Failed(
                write_error(i2c.pre_writes@[i as int], system, bus, e@),
            ),
            Event::NotStarted(e) => Next::Failed(
                ErrorModel::Spawn {
                    command: "i2cset bus "@ + crate::text::decimal_text(bus as nat),
                    source: e@,
                },
            ),
            _ => at_write(i2c, r, (i + 1) as usize),
        },
        Stage::MuxProbe(i) => {
            let m = i2c.muxes@[i as int];
            if event == Event::Present(true) {
                Next::At {
                    stage: Stage::MuxLinks(i),
                    bus,
                    action: ActionModel::Links { bus, address: m.address },
                }
            } else {
                Next::At {
                    stage: Stage::MuxCreate(i),
                    bus,
                    action: ActionModel::Create { bus, driver: m.driver@, address: m.address },
                }
            }
        },
        Stage::MuxCreate(i) => {
            let m = i2c.muxes@[i as int];
            match event {
                Event::Refused(e) => Next::Failed(create_error(m.driver@, bus, m.address, e@)),
                _ => Next::At {
                    stage: Stage::MuxLinks(i),
                    bus,
                    action: ActionModel::Links { bus, address: m.address },
                },
            }
        },
        Stage::MuxLinks(i) => at_mux(i2c, r, (i + 1) as usize),
        Stage::DeviceProbe(i) => {
            let d = i2c.devices@[i as int];
            if event == Event::Present(true) {
                at_device(i2c, r, (i + 1) as usize)
            } else {
                Next::At {
                    stage: Stage::DeviceCreate(i),
                    bus,
                    action: ActionModel::Create { bus, driver: d.driver@, address: d.address },
                }
            }
        },
        Stage::DeviceCreate(i) => {
            let d = i2c.devices@[i as int];
            match event {
                Event::Refused(e) => Next::Failed(create_error(d.driver@, bus, d.address, e@)),
                _ => at_device(i2c, r, (i + 1) as usize),
            }
        },
        Stage::Finished => Next::At { stage: Stage::Finished, bus, action: ActionModel::Finished },
    }
}

/// The bus numbers of the channels that a mux is found to have are numbers.
pub open spec fn channels_fit(mux: I2cMux, list: Seq<(u32, u32)>) -> bool {
    forall|k: int|
        0 <= k < list.len() && (#[trigger] list[k]).0 < mux.channels ==> mux.child_bus_base
            + list[k].0 <= u32::MAX
}

fn numbers_of(mux: &I2cMux, list: &Vec<(u32, u32)>) -> (r: bool)
    ensures
        r == channels_fit(*mux, list@),
{
    let mut k: usize = 0;
    while k < list.len()
        invariant
            k <= list@.len(),
            forall|j: int|
                0 <= j < k && (#[trigger] list@[j]).0 < mux.channels ==> mux.child_bus_base
                    + list@[j].0 <= u32::MAX,
        decreases list@.len() - k,
    {
        if list[k].0 < mux.channels && mux.child_bus_base > u32::MAX - list[k].0 {
            assert(list@[k as int].0 < mux.channels);
            return false;
        }
        k = k + 1;
    }
    true
}

/// The bus numbers that an event brings are numbers.
pub open spec fn numbered(i2c: I2cSection, stage: Stage, event: Event) -> bool {
    match (stage, event) {
        (Stage::MuxLinks(i), Event::Links(links)) => channels_fit(
            i2c.muxes@[i as int],
            channels_of(links@, links@.len() as int),
        ),
        _ => true,
    }
}

/// A pass's outcome is where it goes on.
pub open spec fn goes_on(r: Result<(Stage, u32, Action), SysinitError>, next: Next) -> bool {
    match (r, next) {
        (Ok((s, b, a)), Next::At { stage, bus, action }) => s == stage && b == bus && a@ == action,
        (Err(e), Next::Failed(m)) => e@ == m,
        _ => false,
    }
}

fn unresolved_error(what: &str, bus: &BusRef) -> (r: SysinitError)
    ensures
        r@ == unresolved(what@, *bus),
{
    SysinitError::I2c {
        action: "resolve",
        bus: 0,
        detail: cat4(
            what,
            " references root ",
            &bus.shown(),
            " but no such root adapter is declared",
        ),
    }
}

fn to_device(i2c: &I2cSection, report: &I2cReport, i: usize) -> (r: Result<
    (Stage, u32, Action),
    SysinitError,
>)
    requires
        report.buses.wf(),
    ensures
        goes_on(r, at_device(*i2c, report@, i)),
{
    if i >= i2c.devices.len() {
        return Ok((Stage::Finished, 0, Action::Finished));
    }
    let d = &i2c.devices[i];
    match report.buses.resolve_ref(&d.bus) {
        Some(bus) => Ok((Stage::DeviceProbe(i), bus, Action::Probe { bus, address: d.address })),
        None => Err(unresolved_error(&d.purpose, &d.bus)),
    }
}

fn to_mux(i2c: &I2cSection, report: &I2cReport, i: usize) -> (r: Result<
    (Stage, u32, Action),
    SysinitError,
>)
    requires
        report.buses.wf(),
    ensures
        goes_on(r, at_mux(*i2c, report@, i)),
{
    if i >= i2c.muxes.len() {
        return to_device(i2c, report, 0);
    }
    let m = &i2c.muxes[i];
    match report.buses.resolve_ref(&m.parent_bus) {
        Some(bus) => Ok((Stage::MuxProbe(i), bus, Action::Probe { bus, address: m.address })),
        None => Err(unresolved_error(&m.name, &m.parent_bus)),
    }
}

fn to_write(i2c: &I2cSection, report: &I2cReport, i: usize) -> (r: Result<
    (Stage, u32, Action),
    SysinitError,
>)
    requires
        report.buses.wf(),
    ensures
        goes_on(r, at_write(*i2c, report@, i)),
{
    if i >= i2c.pre_writes.len() {
        return to_mux(i2c, report, 0);
    }
    let w = &i2c.pre_writes[i];
    match report.buses.resolve_ref(&w.bus) {
        Some(bus) => Ok((Stage::Write(i), bus, Action::Write { bus, index: i })),
        None => Err(unresolved_error("pre_write", &w.bus)),
    }
}

fn create_failed(driver: &str, bus: u32, address: u32, e: &str) -> (r: SysinitError)
    ensures
        r@ == create_error(driver@, bus, address, e@),
{
    SysinitError::I2c {
        action: "new_device",
        bus,
        detail: crate::text::cat5(driver, "@", &hex_arg(address), ": ", e),
    }
}

fn push_label(list: &mut Vec<String>, label: String)
    ensures
        final(list).deep_view() == old(list).deep_view().push(label@),
{
    let ghost before = list.deep_view();
    let ghost added = label@;
    list.push(label);
    assert(list.deep_view() =~= before.push(added));
}

impl Bringup {
    /// The numbers of the stage are those of the section.
    pub open spec fn stage_fits(&self, i2c: I2cSection) -> bool {
        match self.stage {
            Stage::Write(i) => i < i2c.pre_writes@.len(),
            Stage::MuxProbe(i) => i < i2c.muxes@.len(),
            Stage::MuxCreate(i) => i < i2c.muxes@.len(),
            Stage::MuxLinks(i) => i < i2c.muxes@.len(),
            Stage::DeviceProbe(i) => i < i2c.devices@.len(),
            Stage::DeviceCreate(i) => i < i2c.devices@.len(),
            Stage::Finished => true,
        }
    }

    pub open spec fn wf(&self, i2c: I2cSection) -> bool {
        self.report.buses.wf() && self.stage_fits(i2c)
    }

    /// Does an event answer what was asked last?
    pub fn expects(&self, event: &Event) -> (r: bool)
        ensures
            r == answers(self.stage, *event),
    {
        match (self.stage, event) {
            (Stage::Write(_), Event::Done) => true,
            (Stage::Write(_), Event::Refused(_)) => true,
            (Stage::Write(_), Event::NotStarted(_)) => true,
            (Stage::MuxProbe(_), Event::Present(_)) => true,
            (Stage::MuxCreate(_), Event::Done) => true,
            (Stage::MuxCreate(_), Event::Refused(_)) => true,
            (Stage::MuxLinks(_), Event::Links(_)) => true,
            (Stage::DeviceProbe(_), Event::Present(_)) => true,
            (Stage::DeviceCreate(_), Event::Done) => true,
            (Stage::DeviceCreate(_), Event::Refused(_)) => true,
            _ => false,
        }
    }

    /// Are the bus numbers that an event brings numbers?
    pub fn numbers(&self, i2c: &I2cSection, event: &Event) -> (r: bool)
        requires
            self.wf(*i2c),
        ensures
            r == numbered(*i2c, self.stage, *event),
    {
        match (self.stage, event) {
            (Stage::MuxLinks(i), Event::Links(links)) => numbers_of(
                &i2c.muxes[i],
                &mux_child_buses(links),
            ),
            _ => true,
        }
    }

    fn record_channels(&mut self, mux: &I2cMux, links: &Vec<Link>)
        requires
            old(self).report.buses.wf(),
            channels_fit(*mux, channels_of(links@, links@.len() as int)),
        ensures
            final(self).report.buses.wf(),
            final(self).stage == old(self).stage,
            final(self).bus == old(self).bus,
            final(self).system == old(self).system,
            ({
                let list = channels_of(links@, links@.len() as int);
                final(self).report@ == (ReportModel {
                    map: with_channels(old(self).report@.map, *mux, list, list.len() as int),
                    ..old(self).report@
                })
            }),
    {
        let list = mux_child_buses(links);
        let ghost before = self.report@;
        let mut k: usize = 0;
        while k < list.len()
            invariant
                k <= list@.len(),
                channels_fit(*mux, list@),
                self.report.buses.wf(),
                self.stage == old(self).stage,
                self.bus == old(self).bus,
                self.system == old(self).system,
                self.report@ == (ReportModel {
                    map: with_channels(before.map, *mux, list@, k as int),
                    ..before
                }),
            decreases list@.len() - k,
        {
            if list[k].0 < mux.channels {
                self.report.buses.insert(mux.child_bus_base + list[k].0, list[k].1);
            }
            k = k + 1;
            assert(self.report@ =~= (ReportModel {
                map: with_channels(before.map, *mux, list@, k as int),
                ..before
            }));
        }
    }

    fn record(&mut self, i2c: &I2cSection, event: &Event)
        requires
            old(self).wf(*i2c),
            numbered(*i2c, old(self).stage, *event),
        ensures
            final(self).wf(*i2c),
            final(self).stage == old(self).stage,
            final(self).bus == old(self).bus,
            final(self).system == old(self).system,
            final(self).report@ == report_after(
                *i2c,
                old(self).report@,
                old(self).stage,
                old(self).bus,
                *event,
            ),
    {
        let bus: u32 = self.bus;
        match (self.stage, event) {
            (Stage::MuxProbe(i), Event::Present(true)) => {
                let m = &i2c.muxes[i];
                push_label(
                    &mut self.report.already_present,
                    cat2("mux ", &label(&m.name, &m.driver, bus, m.address)),
                );
            },
            (Stage::MuxCreate(i), Event::Done) => {
                let m = &i2c.muxes[i];
                push_label(
                    &mut self.report.created,
                    cat2("mux ", &label(&m.name, &m.driver, bus, m.address)),
                );
            },
            (Stage::MuxLinks(i), Event::Links(links)) => {
                self.record_channels(&i2c.muxes[i], links);
            },
            (Stage::DeviceProbe(i), Event::Present(true)) => {
                let d = &i2c.devices[i];
                push_label(
                    &mut self.report.already_present,
                    label(&d.purpose, &d.driver, bus, d.address),
                );
            },
            (Stage::DeviceCreate(i), Event::Done) => {
                let d = &i2c.devices[i];
                push_label(
                    &mut self.report.created,
                    label(&d.purpose, &d.driver, bus, d.address),
                );
            },
            _ => {},
        }
    }

    fn going_on(&self, i2c: &I2cSection, event: &Event) -> (r: Result<
        (Stage, u32, Action),
        SysinitError,
    >)
        requires
            self.wf(*i2c),
        ensures
            goes_on(
                r,
                next_after(*i2c, self.system, self.report@, self.stage, self.bus, *event),
            ),
    {
        let bus: u32 = self.bus;
        assert(i2c.pre_writes.len() <= usize::MAX && i2c.muxes.len() <= usize::MAX
            && i2c.devices.len() <= usize::MAX);
        match self.stage {
            Stage::Write(i) => match event {
                Event::Refused(e) => Err(
                    SysinitError::I2c {
                        action: "raw_write",
                        bus,
                        detail: if self.system {
                            cat3(&i2c.pre_writes[i].purpose, ": ", &trim(e))
                        } else {
                            e.clone()
                        },
                    },
                ),
                Event::NotStarted(e) => Err(
                    SysinitError::Spawn {
                        command: cat2("i2cset bus ", &decimal(bus as u64)),
                        source: e.clone(),
                    },
                ),
                _ => to_write(i2c, &self.report, i + 1),
            },
            Stage::MuxProbe(i) => {
                let m = &i2c.muxes[i];
                match event {
                    Event::Present(true) => Ok(
                        (Stage::MuxLinks(i), bus, Action::Links { bus, address: m.address }),
                    ),
                    _ => Ok(
                        (
                            Stage::MuxCreate(i),
                            bus,
                            Action::Create { bus, driver: m.driver.clone(), address: m.address },
                        ),
                    ),
                }
            },
            Stage::MuxCreate(i) => {
                let m = &i2c.muxes[i];
                match event {
                    Event::Refused(e) => Err(create_failed(&m.driver, bus, m.address, e)),
                    _ => Ok((Stage::MuxLinks(i), bus, Action::Links { bus, address: m.address })),
                }
            },
            Stage::MuxLinks(i) => to_mux(i2c, &self.report, i + 1),
            Stage::DeviceProbe(i) => {
                let d = &i2c.devices[i];
                match event {
                    Event::Present(true) => to_device(i2c, &self.report, i + 1),
                    _ => Ok(
                        (
                            Stage::DeviceCreate(i),
                            bus,
                            Action::Create { bus, driver: d.driver.clone(), address: d.address },
                        ),
                    ),
                }
            },
            Stage::DeviceCreate(i) => {
                let d = &i2c.devices[i];
                match event {
                    Event::Refused(e) => Err(create_failed(&d.driver, bus, d.address, e)),
                    _ => to_device(i2c, &self.report, i + 1),
                }
            },
            Stage::Finished => Ok((Stage::Finished, bus, Action::Finished)),
        }
    }

    /// What comes after an event: pre-writes, then muxes in
    /// declaration order, then devices. The first error ends the pass.
    pub fn next(&mut self, i2c: &I2cSection, event: &Event) -> (r: Result<Action, SysinitError>)
        requires
            old(self).wf(*i2c),
            answers(old(self).stage, *event),
            numbered(*i2c, old(self).stage, *event),
        ensures
            final(self).wf(*i2c),
            final(self).system == old(self).system,
            final(self).report@ == report_after(
                *i2c,
                old(self).report@,
                old(self).stage,
                old(self).bus,
                *event,
            ),
            match next_after(
                *i2c,
                old(self).system,
                final(self).report@,
                old(self).stage,
                old(self).bus,
                *event,
            ) {
                Next::At { stage, bus, action } => {
                    &&& r matches Ok(a)
                    &&& a@ == action
                    &&& final(self).stage == stage
                    &&& final(self).bus == bus
                },
                Next::Failed(m) => {
                    &&& r matches Err(e)
                    &&& e@ == m
                    &&& final(self).stage == Stage::Finished
                },
            },
    {
        self.record(i2c, event);
        match self.going_on(i2c, event) {
            Ok((stage, bus, action)) => {
                self.stage = stage;
                self.bus = bus;
                Ok(action)
            },
            Err(e) => {
                self.stage = Stage::Finished;
                Err(e)
            },
        }
    }
}

/// The report that a pass begins with: the roots, and nothing done.
pub open spec fn first_report(roots: Map<Seq<char>, u32>) -> ReportModel {
    ReportModel {
        root_bus: if roots.dom().contains(DEFAULT_ROOT_NAME@) {
            Some(roots[DEFAULT_ROOT_NAME@])
        } else {
            None
        },
        created: Seq::empty(),
        already_present: Seq::empty(),
        map: Map::empty(),
        roots,
    }
}

impl Sysfs {
    /// Instantiate the manifest's i2c topology: pre-writes, then muxes in
    /// declaration order, then devices. Idempotent. This begins the pass, with
    /// the entries of the i2c device directory; `Bringup::next` goes on.
    pub fn instantiate_i2c(&self, i2c: &I2cSection, entries: &Vec<Entry>) -> (r: Result<
        (Bringup, Action),
        SysinitError,
    >)
        ensures
            match roots_of(*i2c, entries@, i2c.roots@.len() as int) {
                Err(prefix) => r matches Err(e) && e@ == ErrorModel::RootAdapterNotFound(prefix),
                Ok(roots) => match at_write(*i2c, first_report(roots), 0) {
                    Next::At { stage, bus, action } => {
                        &&& r matches Ok((b, a))
                        &&& b.wf(*i2c)
                        &&& b.report@ == first_report(roots)
                        &&& b.stage == stage
                        &&& b.bus == bus
                        &&& b.system == is_root(self.root@)
                        &&& a@ == action
                    },
                    Next::Failed(m) => r matches Err(e) && e@ == m,
                },
            },
    {
        let roots = match self.find_roots(i2c, entries) {
            Ok(roots) => roots,
            Err(e) => {
                return Err(e);
            },
        };
        let root_bus: Option<u32> = match roots.get(&DEFAULT_ROOT_NAME.to_owned()) {
            Some(bus) => Some(*bus),
            None => None,
        };
        let report = I2cReport {
            root_bus,
            created: Vec::new(),
            already_present: Vec::new(),
            buses: BusMap { map: OrdMap::new(), roots },
        };
        assert(report.created.deep_view() =~= Seq::empty());
        assert(report.already_present.deep_view() =~= Seq::empty());
        match to_write(i2c, &report, 0) {
            Ok((stage, bus, action)) => Ok((Bringup { report, stage, bus, system: self.is_system() }, action)),
            Err(e) => Err(e),
        }
    }
}

// -------------------------------------------------------------------- PSUs

/// Where a pass over the PSUs stands.
#[derive(Debug, Clone, Copy, PartialEq, Eq, Structural)]
pub enum PsuStage {
    Probe(usize),
    Create(usize),
    Finished,
}

/// A pass over the PSUs, and the bus of the one it is at.
#[derive(Debug, Clone, Copy, PartialEq, Eq, Structural)]
pub struct PsuPass {
    pub stage: PsuStage,
    pub bus: u32,
}

/// The first PSU, from the `i`th on, whose bus is known.
pub open spec fn psu_at(psus: Seq<Psu>, r: ReportModel, i: int) -> Option<int>
    decreases psus.len() - i,
{
    if i >= psus.len() {
        None
    } else if resolved_ref(r.map, r.roots, psus[i].bus) is Some {
        Some(i)
    } else {
        psu_at(psus, r, i + 1)
    }
}

/// Where a pass goes on from the `i`th PSU: one that references an undeclared
/// root adapter is skipped.
pub open spec fn psu_next(psus: Seq<Psu>, r: ReportModel, i: int) -> (PsuPass, ActionModel) {
    match psu_at(psus, r, i) {
        Some(k) => {
            let bus = resolved_ref(r.map, r.roots, psus[k].bus)->0;
            (
                PsuPass { stage: PsuStage::Probe(k as usize), bus },
                ActionModel::Probe { bus, address: psus[k].address },
            )
        },
        None => (PsuPass { stage: PsuStage::Finished, bus: 0 }, ActionModel::Finished),
    }
}

/// The report after a PSU's event. A missing or absent PSU makes the driver's
/// probe fail; that is skipped, not fatal.
pub open spec fn psu_report(
    psus: Seq<Psu>,
    r: ReportModel,
    pass: PsuPass,
    event: Event,
) -> ReportModel {
    match (pass.stage, event) {
        (PsuStage::Probe(i), Event::Present(true)) => {
            let p = psus[i as int];
            ReportModel {
                already_present: r.already_present.push(
                    device_label(p.name@, p.driver@, pass.bus, p.address),
                ),
                ..r
            }
        },
        (PsuStage::Create(i), Event::Done) => {
            let p = psus[i as int];
            ReportModel {
                created: r.created.push(device_label(p.name@, p.driver@, pass.bus, p.address)),
                ..r
            }
        },
        _ => r,
    }
}

/// Where a pass over the PSUs goes on after an event.
pub open spec fn psu_after(
    psus: Seq<Psu>,
    r: ReportModel,
    pass: PsuPass,
    event: Event,
) -> (PsuPass, ActionModel) {
    match pass.stage {
        PsuStage::Probe(i) => if event == Event::Present(true) {
            psu_next(psus, r, i + 1)
        } else {
            (
                PsuPass { stage: PsuStage::Create(i), ..pass },
                ActionModel::Create {
                    bus: pass.bus,
                    driver: psus[i as int].driver@,
                    address: psus[i as int].address,
                },
            )
        },
        PsuStage::Create(i) => psu_next(psus, r, i + 1),
        PsuStage::Finished => (pass, ActionModel::Finished),
    }
}

impl PsuPass {
    pub open spec fn wf(&self, psus: Seq<Psu>) -> bool {
        match self.stage {
            PsuStage::Probe(i) => i < psus.len(),
            PsuStage::Create(i) => i < psus.len(),
            PsuStage::Finished => true,
        }
    }
}

fn to_psu(psus: &Vec<Psu>, report: &I2cReport, from: usize) -> (r: (PsuPass, Action))
    requires
        report.buses.wf(),
        from <= psus@.len(),
    ensures
        r.0.wf(psus@),
        (r.0, r.1@) == psu_next(psus@, report@, from as int),
{
    let mut i: usize = from;
    while i < psus.len()
        invariant
            from <= i <= psus@.len(),
            report.buses.wf(),
            psu_at(psus@, report@, from as int) == psu_at(psus@, report@, i as int),
        decreases psus@.len() - i,
    {
        match report.buses.resolve_ref(&psus[i].bus) {
            Some(bus) => {
                return (
                    PsuPass { stage: PsuStage::Probe(i), bus },
                    Action::Probe { bus, address: psus[i].address },
                );
            },
            None => {},
        }
        i = i + 1;
    }
    (PsuPass { stage: PsuStage::Finished, bus: 0 }, Action::Finished)
}

impl Sysfs {
    /// Begin a pass over the manifest's PSU pmbus devices (they live in
    /// `[[hardware.psu]]`, not the generic i2c device list, so
    /// `instantiate_i2c` never sees them).
    pub fn first_psu(&self, psus: &Vec<Psu>, report: &I2cReport) -> (r: (PsuPass, Action))
        requires
            report.buses.wf(),
        ensures
            r.0.wf(psus@),
            (r.0, r.1@) == psu_next(psus@, report@, 0),
    {
        to_psu(psus, report, 0)
    }

    /// Instantiate the manifest's PSU pmbus devices. A missing or absent
    /// PSU makes the driver's probe fail; that is skipped, not
    /// fatal: presence is reported separately. Idempotent. This takes how the
    /// last action came out, and says what to do next.
    pub fn instantiate_psus(
        &self,
        psus: &Vec<Psu>,
        report: &mut I2cReport,
        pass: PsuPass,
        event: &Event,
    ) -> (r: (PsuPass, Action))
        requires
            old(report).buses.wf(),
            pass.wf(psus@),
        ensures
            final(report).buses.wf(),
            final(report)@ == psu_report(psus@, old(report)@, pass, *event),
            r.0.wf(psus@),
            (r.0, r.1@) == psu_after(psus@, final(report)@, pass, *event),
    {
        let bus: u32 = pass.bus;
        assert(psus.len() <= usize::MAX);
        match pass.stage {
            PsuStage::Probe(i) => {
                let p = &psus[i];
                match event {
                    Event::Present(true) => {
                        push_label(
                            &mut report.already_present,
                            label(&p.name, &p.driver, bus, p.address),
                        );
                        to_psu(psus, report, i + 1)
                    },
                    _ => (
                        PsuPass { stage: PsuStage::Create(i), bus },
                        Action::Create { bus, driver: p.driver.clone(), address: p.address },
                    ),
                }
            },
            PsuStage::Create(i) => {
                let p = &psus[i];
                match event {
                    Event::Done => {
                        push_label(
                            &mut report.created,
                            label(&p.name, &p.driver, bus, p.address),
                        );
                    },
                    _ => {},
                }
                to_psu(psus, report, i + 1)
            },
            PsuStage::Finished => (pass, Action::Finished),
        }
    }
}

// --------------------------------------------------------------- i2c access

/// What is written to a bus's `new_device` to bind a driver.
pub fn new_device_text(driver: &str, address: u32) -> (r: String)
    ensures
        r@ == driver@ + " "@ + hex_byte(address) + "\n"@,
{
    cat4(driver, " ", &hex_arg(address), "\n")
}

/// The bytes of a raw write.
pub open spec fn byte_texts(data: Seq<u32>) -> Seq<Seq<char>> {
    Seq::new(data.len(), |i: int| hex_byte(data[i]))
}

fn byte_args(data: &Vec<u32>) -> (r: Vec<String>)
    ensures
        r.deep_view() == byte_texts(data@),
{
    let mut r: Vec<String> = Vec::new();
    let mut i: usize = 0;
    while i < data.len()
        invariant
            i <= data@.len(),
            r@.len() == i,
            forall|j: int| 0 <= j < i ==> (#[trigger] r@[j])@ == hex_byte(data@[j]),
        decreases data@.len() - i,
    {
        r.push(hex_arg(data[i]));
        i = i + 1;
    }
    assert(r.deep_view() =~= byte_texts(data@));
    r
}

/// A raw write as it is recorded where there is no bus: the address, then the
/// bytes.
pub fn raw_write_record(write: &I2cWrite) -> (r: String)
    ensures
        r@ == hex_byte(write.address) + " "@ + crate::text::join_text(
            byte_texts(write.data@),
            " "@,
        ) + "\n"@,
{
    let bytes = byte_args(&write.data);
    cat4(&hex_arg(write.address), " ", &crate::text::join(&bytes, " "), "\n")
}

/// The arguments of `i2cset` for a raw write: block mode, and forced, since
/// the target has no driver bound yet by design.
pub fn raw_write_args(bus: u32, write: &I2cWrite) -> (r: Vec<String>)
    ensures
        r.deep_view() == seq!["-y"@, "-f"@, crate::text::decimal_text(bus as nat), hex_byte(
            write.address,
        )] + byte_texts(write.data@) + seq!["i"@],
{
    let mut r: Vec<String> = Vec::new();
    r.push("-y".to_owned());
    r.push("-f".to_owned());
    r.push(decimal(bus as u64));
    r.push(hex_arg(write.address));
    let mut bytes = byte_args(&write.data);
    let ghost middle = bytes.deep_view();
    r.append(&mut bytes);
    r.push("i".to_owned());
    assert(r.deep_view() =~= seq!["-y"@, "-f"@, crate::text::decimal_text(bus as nat), hex_byte(
        write.address,
    )] + middle + seq!["i"@]);
    r
}

/// A register write as it is recorded where there is no bus.
pub fn reg_write_record(address: u32, register: u8, value: u8) -> (r: String)
    ensures
        r@ == hex_byte(address) + " "@ + hex_byte(register as u32) + " "@ + hex_byte(value as u32)
            + "\n"@,
{
    cat6(&hex_arg(address), " ", &hex_arg(register as u32), " ", &hex_arg(value as u32), "\n")
}

/// The arguments of `i2cset` for one SMBus byte-data register write. `-f`
/// because these targets deliberately have no driver bound: the CPLD is ours
/// to poke, not the kernel's.
pub fn reg_write_args(bus: u32, address: u32, register: u8, value: u8) -> (r: Vec<String>)
    ensures
        r.deep_view() == seq!["-y"@, "-f"@, crate::text::decimal_text(bus as nat), hex_byte(
            address,
        ), hex_byte(register as u32), hex_byte(value as u32)],
{
    let mut r = reg_read_args(bus, address, register);
    let ghost front = r.deep_view();
    r.push(hex_arg(value as u32));
    assert(r.deep_view() =~= front.push(hex_byte(value as u32)));
    r
}

/// The arguments of `i2cget` for one SMBus byte-data register read.
pub fn reg_read_args(bus: u32, address: u32, register: u8) -> (r: Vec<String>)
    ensures
        r.deep_view() == seq!["-y"@, "-f"@, crate::text::decimal_text(bus as nat), hex_byte(
            address,
        ), hex_byte(register as u32)],
{
    let mut r: Vec<String> = Vec::new();
    r.push("-y".to_owned());
    r.push("-f".to_owned());
    r.push(decimal(bus as u64));
    r.push(hex_arg(address));
    r.push(hex_arg(register as u32));
    assert(r.deep_view() =~= seq!["-y"@, "-f"@, crate::text::decimal_text(bus as nat), hex_byte(
        address,
    ), hex_byte(register as u32)]);
    r
}

/// The file that stands for a register where there is no bus.
pub fn reg_file(address: u32, register: u8) -> (r: String)
    ensures
        r@ == "reg-"@ + crate::text::hex_text(address as nat, 2) + "-"@ + crate::text::hex_text(
            register as nat,
            2,
        ),
{
    cat4("reg-", &hex(address as u64, 2), "-", &hex(register as u64, 2))
}

/// The byte in what `i2cget` printed on a bus, or the error that says what it
/// printed instead.
pub fn read_reg_output(bus: u32, stdout: &str) -> (r: Result<u8, SysinitError>)
    ensures
        match r {
            Ok(b) => i2c_byte(stdout@) == Some(b as int),
            Err(e) => i2c_byte(stdout@) is None && e@ == (ErrorModel::I2c {
                action: "i2c_read_reg"@,
                bus,
                detail: "unparsable i2cget output "@ + crate::text::quoted_text(
                    crate::text::trim_text(stdout@),
                ),
            }),
        },
{
    match parse_i2c_byte(stdout) {
        Some(b) => Ok(b),
        None => Err(
            SysinitError::I2c {
                action: "i2c_read_reg",
                bus,
                detail: cat2("unparsable i2cget output ", &quoted(&trim(stdout))),
            },
        ),
    }
}

/// The byte in the file that stands for a register where there is no bus, or
/// the error that says what the file holds instead.
pub fn read_reg_file(bus: u32, text: &str) -> (r: Result<u8, SysinitError>)
    ensures
        match r {
            Ok(b) => i2c_byte(text@) == Some(b as int),
            Err(e) => i2c_byte(text@) is None && e@ == (ErrorModel::I2c {
                action: "i2c_read_reg"@,
                bus,
                detail: "unparsable "@ + crate::text::quoted_text(text@),
            }),
        },
{
    match parse_i2c_byte(text) {
        Some(b) => Ok(b),
        None => Err(
            SysinitError::I2c {
                action: "i2c_read_reg",
                bus,
                detail: cat2("unparsable ", &quoted(text)),
            },
        ),
    }
}

/// The error of a refused register access: on the running system what the
/// tool printed, in a tree of files the bare reason.
pub fn reg_refused(write: bool, system: bool, bus: u32, why: &str) -> (r: SysinitError)
    ensures
        r@ == (ErrorModel::I2c {
            action: if write {
                "i2c_write_reg"@
            } else {
                "i2c_read_reg"@
            },
            bus,
            detail: if system {
                crate::text::trim_text(why@)
            } else {
                why@
            },
        }),
{
    SysinitError::I2c {
        action: if write {
            "i2c_write_reg"
        } else {
            "i2c_read_reg"
        },
        bus,
        detail: if system {
            trim(why)
        } else {
            why.to_owned()
        },
    }
}

/// The error of a register access whose tool could not be started.
pub fn reg_not_started(write: bool, bus: u32, source: &str) -> (r: SysinitError)
    ensures
        r@ == (ErrorModel::Spawn {
            command: (if write {
                "i2cset bus "@
            } else {
                "i2cget bus "@
            }) + crate::text::decimal_text(bus as nat),
            source: source@,
        }),
{
    let tool = if write {
        "i2cset bus "
    } else {
        "i2cget bus "
    };
    SysinitError::Spawn { command: cat2(tool, &decimal(bus as u64)), source: source.to_owned() }
}

// ------------------------------------------------------------------- laws

/// Unknown declared numbers resolve to themselves: an empty map changes no bus
/// number and, for identities written in plain decimal, no identity.
pub proof fn lemma_unknown_bus_is_identity(map: Map<u32, u32>, declared: u32)
    ensures
        !map.dom().contains(declared) ==> resolved(map, declared) == declared,
        resolved(map.insert(declared, declared), declared) == declared,
{
}

/// A map without divergences translates nothing.
pub proof fn lemma_matching_numbers_are_kept(m: OrdMap<u32, u32>, declared: u32)
    requires
        m.wf(),
        differing(m.entries@, m.entries@.len() as int).len() == 0,
    ensures
        resolved(m@, declared) == declared,
{
    if m@.dom().contains(declared) {
        let i = choose|i: int|
            0 <= i < m.entries@.len() && (#[trigger] m.entries@[i]).0@ == declared;
        crate::ordmap::lemma_map_of_entry(m.entries@, i);
        lemma_no_difference(m.entries@, m.entries@.len() as int, i);
    }
}

proof fn lemma_no_difference(entries: Seq<(u32, u32)>, n: int, i: int)
    requires
        0 <= i < n <= entries.len(),
        differing(entries, n).len() == 0,
    ensures
        entries[i].0 == entries[i].1,
    decreases n,
{
    if i < n - 1 {
        lemma_no_difference(entries, n - 1, i);
    }
}

/// A platform device keeps its identity whatever the map says, and its
/// directory is not on the i2c bus.
pub proof fn lemma_platform_devices_stay(map: Map<u32, u32>, name: Seq<char>)
    ensures
        resolved_hwmon(map, PLATFORM_HWMON_PREFIX@ + name) == PLATFORM_HWMON_PREFIX@ + name,
        hwmon_dir(PLATFORM_HWMON_PREFIX@ + name) == "/sys/devices/platform/"@ + name,
{
    let whole = PLATFORM_HWMON_PREFIX@ + name;
    assert(whole.take(PLATFORM_HWMON_PREFIX@.len() as int) =~= PLATFORM_HWMON_PREFIX@);
    assert(whole.skip(PLATFORM_HWMON_PREFIX@.len() as int) =~= name);
}

/// How far a stage is into a pass.
pub open spec fn progress(i2c: I2cSection, stage: Stage) -> int {
    let writes = i2c.pre_writes@.len() as int;
    let muxes = i2c.muxes@.len() as int;
    let devices = i2c.devices@.len() as int;
    match stage {
        Stage::Write(i) => i as int,
        Stage::MuxProbe(i) => writes + 3 * i,
        Stage::MuxCreate(i) => writes + 3 * i + 1,
        Stage::MuxLinks(i) => writes + 3 * i + 2,
        Stage::DeviceProbe(i) => writes + 3 * muxes + 2 * i,
        Stage::DeviceCreate(i) => writes + 3 * muxes + 2 * i + 1,
        Stage::Finished => writes + 3 * muxes + 2 * devices,
    }
}

/// Bring-up goes forward only: pre-writes, then muxes in declaration order,
/// then devices in declaration order, and it comes to an end.
pub proof fn lemma_bringup_goes_forward(i2c: I2cSection, b: Bringup, event: Event)
    requires
        b.wf(i2c),
        b.stage != Stage::Finished,
        answers(b.stage, event),
    ensures
        ({
            let r = report_after(i2c, b.report@, b.stage, b.bus, event);
            match next_after(i2c, b.system, r, b.stage, b.bus, event) {
                Next::At { stage, .. } => progress(i2c, b.stage) < progress(i2c, stage)
                    <= progress(i2c, Stage::Finished),
                Next::Failed(_) => true,
            }
        }),
{
    lemma_lengths(i2c);
}

/// Bring-up is idempotent: what is found is not created again, only noted.
pub proof fn lemma_found_is_not_created(
    i2c: I2cSection,
    system: bool,
    r: ReportModel,
    stage: Stage,
    bus: u32,
)
    requires
        stage is MuxProbe || stage is DeviceProbe,
    ensures
        report_after(i2c, r, stage, bus, Event::Present(true)).created == r.created,
        report_after(i2c, r, stage, bus, Event::Present(true)).already_present.len()
            == r.already_present.len() + 1,
        next_after(i2c, system, r, stage, bus, Event::Present(true)) matches Next::At { action, .. }
            ==> !(action is Create),
{
}

// -------------------------------------------------------- whole passes

/// What a pass meets: the devices that are there, by bus and address, and the
/// files in each mux's device directory.
pub struct Board {
    pub present: Set<(u32, u32)>,
    pub links: spec_fn(u32, u32) -> Vec<Link>,
}

/// A pass under way or ended, as mathematical values.
pub enum PassState {
    At { report: ReportModel, stage: Stage, bus: u32 },
    Failed(ErrorModel),
}

/// A pass that goes on with a report.
pub open spec fn placed(report: ReportModel, next: Next) -> PassState {
    match next {
        Next::At { stage, bus, .. } => PassState::At { report, stage, bus },
        Next::Failed(m) => PassState::Failed(m),
    }
}

/// A pass that begins with the root adapters found.
pub open spec fn begun(i2c: I2cSection, roots: Map<Seq<char>, u32>) -> PassState {
    placed(first_report(roots), at_write(i2c, first_report(roots), 0))
}

/// What a board answers: writes and creations are taken, and what is there is
/// found.
pub open spec fn reply(i2c: I2cSection, board: Board, stage: Stage, bus: u32) -> Event {
    match stage {
        Stage::MuxProbe(i) => Event::Present(
            board.present.contains((bus, i2c.muxes@[i as int].address)),
        ),
        Stage::MuxLinks(i) => Event::Links((board.links)(bus, i2c.muxes@[i as int].address)),
        Stage::DeviceProbe(i) => Event::Present(
            board.present.contains((bus, i2c.devices@[i as int].address)),
        ),
        _ => Event::Done,
    }
}

/// The board once a stage is done: what is created appears.
pub open spec fn board_after(i2c: I2cSection, board: Board, stage: Stage, bus: u32) -> Board {
    match stage {
        Stage::MuxCreate(i) => Board {
            present: board.present.insert((bus, i2c.muxes@[i as int].address)),
            ..board
        },
        Stage::DeviceCreate(i) => Board {
            present: board.present.insert((bus, i2c.devices@[i as int].address)),
            ..board
        },
        _ => board,
    }
}

/// A board and a pass, one step later. A pass that has ended stays.
pub open spec fn stepped(i2c: I2cSection, system: bool, board: Board, p: PassState) -> (
    Board,
    PassState,
) {
    match p {
        PassState::At { report, stage, bus } => if stage == Stage::Finished {
            (board, p)
        } else {
            let event = reply(i2c, board, stage, bus);
            let r = report_after(i2c, report, stage, bus, event);
            (
                board_after(i2c, board, stage, bus),
                placed(r, next_after(i2c, system, r, stage, bus, event)),
            )
        },
        PassState::Failed(m) => (board, p),
    }
}

/// A board and a pass, `n` steps later.
pub open spec fn run(
    i2c: I2cSection,
    system: bool,
    board: Board,
    p: PassState,
    n: nat,
) -> (Board, PassState)
    decreases n,
{
    if n == 0 {
        (board, p)
    } else {
        let (b, q) = run(i2c, system, board, p, (n - 1) as nat);
        stepped(i2c, system, b, q)
    }
}

/// The steps of a pass that finds everything there: one for each pre-write
/// and device, two for each mux.
pub open spec fn second_steps(i2c: I2cSection) -> nat {
    i2c.pre_writes@.len() + 2 * i2c.muxes@.len() + i2c.devices@.len()
}

/// A pass on a board never comes to create anything.
pub open spec fn never_creates(
    i2c: I2cSection,
    system: bool,
    roots: Map<Seq<char>, u32>,
    board: Board,
) -> bool {
    forall|k: nat|
        k <= second_steps(i2c) ==> creates_nothing(
            (#[trigger] run(i2c, system, board, begun(i2c, roots), k)).1,
        )
}

/// A pass is under way or at its end, and not about to create anything.
pub open spec fn creates_nothing(p: PassState) -> bool {
    p matches PassState::At { stage, .. } && !(stage is MuxCreate) && !(stage is DeviceCreate)
}

/// The bus map once the first `n` muxes are known.
spec fn map_upto(
    i2c: I2cSection,
    links: spec_fn(u32, u32) -> Vec<Link>,
    roots: Map<Seq<char>, u32>,
    n: int,
) -> Map<u32, u32>
    decreases n,
{
    if n <= 0 {
        Map::empty()
    } else {
        let map = map_upto(i2c, links, roots, n - 1);
        let mux = i2c.muxes@[n - 1];
        match resolved_ref(map, roots, mux.parent_bus) {
            Some(bus) => {
                let found = links(bus, mux.address);
                let list = channels_of(found@, found@.len() as int);
                with_channels(map, mux, list, list.len() as int)
            },
            None => map,
        }
    }
}

spec fn mux_bus(
    i2c: I2cSection,
    links: spec_fn(u32, u32) -> Vec<Link>,
    roots: Map<Seq<char>, u32>,
    i: int,
) -> Option<u32> {
    resolved_ref(map_upto(i2c, links, roots, i), roots, i2c.muxes@[i].parent_bus)
}

spec fn device_bus(
    i2c: I2cSection,
    links: spec_fn(u32, u32) -> Vec<Link>,
    roots: Map<Seq<char>, u32>,
    i: int,
) -> Option<u32> {
    resolved_ref(
        map_upto(i2c, links, roots, i2c.muxes@.len() as int),
        roots,
        i2c.devices@[i].bus,
    )
}

/// The first `n` pre-writes have a bus.
spec fn writes_placed(i2c: I2cSection, roots: Map<Seq<char>, u32>, n: int) -> bool {
    forall|j: int|
        0 <= j < n ==> resolved_ref(Map::empty(), roots, (#[trigger] i2c.pre_writes@[j]).bus)
            is Some
}

/// The first `n` muxes are there.
spec fn muxes_there(
    i2c: I2cSection,
    board: Board,
    roots: Map<Seq<char>, u32>,
    n: int,
) -> bool {
    forall|j: int|
        0 <= j < n ==> {
            &&& #[trigger] mux_bus(i2c, board.links, roots, j) is Some
            &&& board.present.contains(
                (mux_bus(i2c, board.links, roots, j)->0, i2c.muxes@[j].address),
            )
        }
}

/// The first `n` devices are there.
spec fn devices_there(
    i2c: I2cSection,
    board: Board,
    roots: Map<Seq<char>, u32>,
    n: int,
) -> bool {
    forall|j: int|
        0 <= j < n ==> {
            &&& #[trigger] device_bus(i2c, board.links, roots, j) is Some
            &&& board.present.contains(
                (device_bus(i2c, board.links, roots, j)->0, i2c.devices@[j].address),
            )
        }
}

/// What a pass knows where it stands: what lies behind it is there.
spec fn keeps(
    i2c: I2cSection,
    roots: Map<Seq<char>, u32>,
    board: Board,
    report: ReportModel,
    stage: Stage,
    bus: u32,
) -> bool {
    let writes = i2c.pre_writes@.len() as int;
    let muxes = i2c.muxes@.len() as int;
    let devices = i2c.devices@.len() as int;
    &&& report.roots == roots
    &&& report.root_bus == first_report(roots).root_bus
    &&& match stage {
        Stage::Write(i) => {
            &&& i < writes
            &&& report.map == Map::<u32, u32>::empty()
            &&& writes_placed(i2c, roots, i + 1)
        },
        Stage::MuxProbe(i) => {
            &&& i < muxes
            &&& report.map == map_upto(i2c, board.links, roots, i as int)
            &&& writes_placed(i2c, roots, writes)
            &&& muxes_there(i2c, board, roots, i as int)
            &&& mux_bus(i2c, board.links, roots, i as int) == Some(bus)
        },
        Stage::MuxCreate(i) => {
            &&& i < muxes
            &&& report.map == map_upto(i2c, board.links, roots, i as int)
            &&& writes_placed(i2c, roots, writes)
            &&& muxes_there(i2c, board, roots, i as int)
            &&& mux_bus(i2c, board.links, roots, i as int) == Some(bus)
        },
        Stage::MuxLinks(i) => {
            &&& i < muxes
            &&& report.map == map_upto(i2c, board.links, roots, i as int)
            &&& writes_placed(i2c, roots, writes)
            &&& muxes_there(i2c, board, roots, i + 1)
            &&& mux_bus(i2c, board.links, roots, i as int) == Some(bus)
        },
        Stage::DeviceProbe(i) => {
            &&& i < devices
            &&& report.map == map_upto(i2c, board.links, roots, muxes)
            &&& writes_placed(i2c, roots, writes)
            &&& muxes_there(i2c, board, roots, muxes)
            &&& devices_there(i2c, board, roots, i as int)
            &&& device_bus(i2c, board.links, roots, i as int) == Some(bus)
        },
        Stage::DeviceCreate(i) => {
            &&& i < devices
            &&& report.map == map_upto(i2c, board.links, roots, muxes)
            &&& writes_placed(i2c, roots, writes)
            &&& muxes_there(i2c, board, roots, muxes)
            &&& devices_there(i2c, board, roots, i as int)
            &&& device_bus(i2c, board.links, roots, i as int) == Some(bus)
        },
        Stage::Finished => {
            &&& report.map == map_upto(i2c, board.links, roots, muxes)
            &&& writes_placed(i2c, roots, writes)
            &&& muxes_there(i2c, board, roots, muxes)
            &&& devices_there(i2c, board, roots, devices)
        },
    }
}

spec fn pass_keeps(
    i2c: I2cSection,
    roots: Map<Seq<char>, u32>,
    board: Board,
    p: PassState,
) -> bool {
    p matches PassState::At { report, stage, bus } ==> keeps(
        i2c,
        roots,
        board,
        report,
        stage,
        bus,
    )
}

proof fn lemma_lengths(i2c: I2cSection)
    ensures
        i2c.pre_writes@.len() <= usize::MAX,
        i2c.muxes@.len() <= usize::MAX,
        i2c.devices@.len() <= usize::MAX,
{
    assert(i2c.pre_writes.len() <= usize::MAX && i2c.muxes.len() <= usize::MAX
        && i2c.devices.len() <= usize::MAX);
}

/// From the devices on a pass keeps what it knows.
proof fn lemma_at_device_keeps(
    i2c: I2cSection,
    roots: Map<Seq<char>, u32>,
    board: Board,
    r: ReportModel,
    i: usize,
)
    requires
        r.roots == roots,
        r.root_bus == first_report(roots).root_bus,
        r.map == map_upto(i2c, board.links, roots, i2c.muxes@.len() as int),
        writes_placed(i2c, roots, i2c.pre_writes@.len() as int),
        muxes_there(i2c, board, roots, i2c.muxes@.len() as int),
        i <= i2c.devices@.len(),
        devices_there(i2c, board, roots, i as int),
    ensures
        pass_keeps(i2c, roots, board, placed(r, at_device(i2c, r, i))),
{
    if i < i2c.devices@.len() {
        assert(device_bus(i2c, board.links, roots, i as int) == resolved_ref(
            r.map,
            r.roots,
            i2c.devices@[i as int].bus,
        ));
    }
}

/// From the muxes on a pass keeps what it knows.
proof fn lemma_at_mux_keeps(
    i2c: I2cSection,
    roots: Map<Seq<char>, u32>,
    board: Board,
    r: ReportModel,
    i: usize,
)
    requires
        r.roots == roots,
        r.root_bus == first_report(roots).root_bus,
        i <= i2c.muxes@.len(),
        r.map == map_upto(i2c, board.links, roots, i as int),
        writes_placed(i2c, roots, i2c.pre_writes@.len() as int),
        muxes_there(i2c, board, roots, i as int),
    ensures
        pass_keeps(i2c, roots, board, placed(r, at_mux(i2c, r, i))),
{
    if i < i2c.muxes@.len() {
        assert(mux_bus(i2c, board.links, roots, i as int) == resolved_ref(
            r.map,
            r.roots,
            i2c.muxes@[i as int].parent_bus,
        ));
    } else {
        lemma_at_device_keeps(i2c, roots, board, r, 0);
    }
}

/// From the pre-writes on a pass keeps what it knows.
proof fn lemma_at_write_keeps(
    i2c: I2cSection,
    roots: Map<Seq<char>, u32>,
    board: Board,
    r: ReportModel,
    i: usize,
)
    requires
        r.roots == roots,
        r.root_bus == first_report(roots).root_bus,
        r.map == Map::<u32, u32>::empty(),
        i <= i2c.pre_writes@.len(),
        writes_placed(i2c, roots, i as int),
    ensures
        pass_keeps(i2c, roots, board, placed(r, at_write(i2c, r, i))),
{
    if i >= i2c.pre_writes@.len() {
        lemma_at_mux_keeps(i2c, roots, board, r, 0);
    }
}

proof fn lemma_step_keeps(
    i2c: I2cSection,
    system: bool,
    roots: Map<Seq<char>, u32>,
    board: Board,
    p: PassState,
)
    requires
        pass_keeps(i2c, roots, board, p),
    ensures
        stepped(i2c, system, board, p).0.links == board.links,
        pass_keeps(
            i2c,
            roots,
            stepped(i2c, system, board, p).0,
            stepped(i2c, system, board, p).1,
        ),
{
    lemma_lengths(i2c);
    if let PassState::At { report, stage, bus } = p {
        let event = reply(i2c, board, stage, bus);
        let r = report_after(i2c, report, stage, bus, event);
        let b = board_after(i2c, board, stage, bus);
        match stage {
            Stage::Write(i) => {
                lemma_at_write_keeps(i2c, roots, b, r, (i + 1) as usize);
            },
            Stage::MuxProbe(i) => {
                assert(board.present.contains((bus, i2c.muxes@[i as int].address)) ==> muxes_there(
                    i2c,
                    board,
                    roots,
                    i + 1,
                ));
            },
            Stage::MuxCreate(i) => {
                assert(muxes_there(i2c, b, roots, i + 1));
            },
            Stage::MuxLinks(i) => {
                lemma_at_mux_keeps(i2c, roots, b, r, (i + 1) as usize);
            },
            Stage::DeviceProbe(i) => {
                if board.present.contains((bus, i2c.devices@[i as int].address)) {
                    assert(devices_there(i2c, board, roots, i + 1));
                    lemma_at_device_keeps(i2c, roots, b, r, (i + 1) as usize);
                }
            },
            Stage::DeviceCreate(i) => {
                assert(muxes_there(i2c, b, roots, i2c.muxes@.len() as int));
                assert(devices_there(i2c, b, roots, i + 1));
                lemma_at_device_keeps(i2c, roots, b, r, (i + 1) as usize);
            },
            Stage::Finished => {},
        }
    }
}

proof fn lemma_run_keeps(
    i2c: I2cSection,
    system: bool,
    roots: Map<Seq<char>, u32>,
    board: Board,
    n: nat,
)
    ensures
        ({
            let (b, p) = run(i2c, system, board, begun(i2c, roots), n);
            b.links == board.links && pass_keeps(i2c, roots, b, p)
        }),
    decreases n,
{
    if n == 0 {
        lemma_at_write_keeps(i2c, roots, board, first_report(roots), 0);
    } else {
        lemma_run_keeps(i2c, system, roots, board, (n - 1) as nat);
        let (b, p) = run(i2c, system, board, begun(i2c, roots), (n - 1) as nat);
        lemma_step_keeps(i2c, system, roots, b, p);
    }
}

/// Where a pass that finds everything stands after `n` steps.
spec fn second_stage(i2c: I2cSection, n: int) -> Stage {
    let writes = i2c.pre_writes@.len() as int;
    let muxes = i2c.muxes@.len() as int;
    if n < writes {
        Stage::Write(n as usize)
    } else if n < writes + 2 * muxes {
        if (n - writes) % 2 == 0 {
            Stage::MuxProbe(((n - writes) / 2) as usize)
        } else {
            Stage::MuxLinks(((n - writes) / 2) as usize)
        }
    } else if n < second_steps(i2c) {
        Stage::DeviceProbe((n - writes - 2 * muxes) as usize)
    } else {
        Stage::Finished
    }
}

/// What it has found by then.
spec fn second_found(i2c: I2cSection, n: int) -> int {
    let writes = i2c.pre_writes@.len() as int;
    let muxes = i2c.muxes@.len() as int;
    if n < writes {
        0
    } else if n < writes + 2 * muxes {
        (n - writes + 1) / 2
    } else {
        n - writes - muxes
    }
}

/// A pass that finds everything where it ought to stand, with nothing
/// created.
spec fn second_stands(
    i2c: I2cSection,
    roots: Map<Seq<char>, u32>,
    board: Board,
    p: PassState,
    n: int,
) -> bool {
    p matches PassState::At { report, stage, bus } && stage == second_stage(i2c, n) && keeps(
        i2c,
        roots,
        board,
        report,
        stage,
        bus,
    ) && report.created.len() == 0 && report.already_present.len() == second_found(i2c, n)
}

proof fn lemma_second_step(
    i2c: I2cSection,
    system: bool,
    roots: Map<Seq<char>, u32>,
    board: Board,
    p: PassState,
    n: int,
)
    requires
        0 <= n < second_steps(i2c),
        writes_placed(i2c, roots, i2c.pre_writes@.len() as int),
        muxes_there(i2c, board, roots, i2c.muxes@.len() as int),
        devices_there(i2c, board, roots, i2c.devices@.len() as int),
        second_stands(i2c, roots, board, p, n),
    ensures
        stepped(i2c, system, board, p).0 == board,
        second_stands(i2c, roots, board, stepped(i2c, system, board, p).1, n + 1),
{
    lemma_lengths(i2c);
    lemma_step_keeps(i2c, system, roots, board, p);
    let writes = i2c.pre_writes@.len() as int;
    let muxes = i2c.muxes@.len() as int;
    if let PassState::At { report, stage, bus } = p {
        let event = reply(i2c, board, stage, bus);
        let r = report_after(i2c, report, stage, bus, event);
        match stage {
            Stage::Write(i) => {
                lemma_second_from_write(i2c, roots, board, r, (i + 1) as usize);
            },
            Stage::MuxProbe(i) => {
                assert(i == (n - writes) / 2);
                assert(mux_bus(i2c, board.links, roots, i as int) is Some);
                assert(event == Event::Present(true));
            },
            Stage::MuxLinks(i) => {
                assert(i == (n - writes) / 2);
                lemma_second_from_mux(i2c, roots, board, r, (i + 1) as usize);
            },
            Stage::DeviceProbe(i) => {
                assert(device_bus(i2c, board.links, roots, i as int) is Some);
                assert(event == Event::Present(true));
                lemma_second_from_device(i2c, roots, board, r, (i + 1) as usize);
            },
            _ => {},
        }
    }
}

proof fn lemma_second_from_device(
    i2c: I2cSection,
    roots: Map<Seq<char>, u32>,
    board: Board,
    r: ReportModel,
    i: usize,
)
    requires
        r.roots == roots,
        r.root_bus == first_report(roots).root_bus,
        r.map == map_upto(i2c, board.links, roots, i2c.muxes@.len() as int),
        writes_placed(i2c, roots, i2c.pre_writes@.len() as int),
        muxes_there(i2c, board, roots, i2c.muxes@.len() as int),
        devices_there(i2c, board, roots, i2c.devices@.len() as int),
        i <= i2c.devices@.len(),
        r.created.len() == 0,
        r.already_present.len() == i2c.muxes@.len() + i,
    ensures
        second_stands(
            i2c,
            roots,
            board,
            placed(r, at_device(i2c, r, i)),
            i2c.pre_writes@.len() + 2 * i2c.muxes@.len() + i,
        ),
{
    lemma_lengths(i2c);
    lemma_at_device_keeps(i2c, roots, board, r, i);
    if i < i2c.devices@.len() {
        assert(device_bus(i2c, board.links, roots, i as int) is Some);
    }
}

proof fn lemma_second_from_mux(
    i2c: I2cSection,
    roots: Map<Seq<char>, u32>,
    board: Board,
    r: ReportModel,
    i: usize,
)
    requires
        r.roots == roots,
        r.root_bus == first_report(roots).root_bus,
        i <= i2c.muxes@.len(),
        r.map == map_upto(i2c, board.links, roots, i as int),
        writes_placed(i2c, roots, i2c.pre_writes@.len() as int),
        muxes_there(i2c, board, roots, i2c.muxes@.len() as int),
        devices_there(i2c, board, roots, i2c.devices@.len() as int),
        r.created.len() == 0,
        r.already_present.len() == i,
    ensures
        second_stands(
            i2c,
            roots,
            board,
            placed(r, at_mux(i2c, r, i)),
            i2c.pre_writes@.len() + 2 * i,
        ),
{
    lemma_lengths(i2c);
    if i < i2c.muxes@.len() {
        lemma_at_mux_keeps(i2c, roots, board, r, i);
        assert(mux_bus(i2c, board.links, roots, i as int) is Some);
        assert((2 * i) % 2 == 0 && (2 * i) / 2 == i && (2 * i + 1) / 2 == i);
    } else {
        lemma_second_from_device(i2c, roots, board, r, 0);
    }
}

proof fn lemma_second_from_write(
    i2c: I2cSection,
    roots: Map<Seq<char>, u32>,
    board: Board,
    r: ReportModel,
    i: usize,
)
    requires
        r.roots == roots,
        r.root_bus == first_report(roots).root_bus,
        r.map == Map::<u32, u32>::empty(),
        i <= i2c.pre_writes@.len(),
        writes_placed(i2c, roots, i2c.pre_writes@.len() as int),
        muxes_there(i2c, board, roots, i2c.muxes@.len() as int),
        devices_there(i2c, board, roots, i2c.devices@.len() as int),
        r.created.len() == 0,
        r.already_present.len() == 0,
    ensures
        second_stands(i2c, roots, board, placed(r, at_write(i2c, r, i)), i as int),
{
    lemma_lengths(i2c);
    if i < i2c.pre_writes@.len() {
        lemma_at_write_keeps(i2c, roots, board, r, i);
        assert(resolved_ref(r.map, roots, i2c.pre_writes@[i as int].bus) is Some);
    } else {
        lemma_second_from_mux(i2c, roots, board, r, 0);
    }
}

proof fn lemma_second_run(
    i2c: I2cSection,
    system: bool,
    roots: Map<Seq<char>, u32>,
    board: Board,
    n: nat,
)
    requires
        n <= second_steps(i2c),
        writes_placed(i2c, roots, i2c.pre_writes@.len() as int),
        muxes_there(i2c, board, roots, i2c.muxes@.len() as int),
        devices_there(i2c, board, roots, i2c.devices@.len() as int),
    ensures
        run(i2c, system, board, begun(i2c, roots), n).0 == board,
        second_stands(
            i2c,
            roots,
            board,
            run(i2c, system, board, begun(i2c, roots), n).1,
            n as int,
        ),
    decreases n,
{
    if n == 0 {
        lemma_second_from_write(i2c, roots, board, first_report(roots), 0);
    } else {
        lemma_second_run(i2c, system, roots, board, (n - 1) as nat);
        let (b, p) = run(i2c, system, board, begun(i2c, roots), (n - 1) as nat);
        lemma_second_step(i2c, system, roots, board, p, n - 1);
    }
}

/// Bring-up is idempotent: where a first pass came to its end, a second one on
/// the same board comes to its end too, creates nothing on the way, finds
/// every mux and device, and sees the same buses.
pub proof fn lemma_second_pass_creates_nothing(
    i2c: I2cSection,
    system: bool,
    roots: Map<Seq<char>, u32>,
    board: Board,
    n: nat,
)
    requires
        run(i2c, system, board, begun(i2c, roots), n).1 matches PassState::At {
            stage: Stage::Finished,
            ..
        },
    ensures
        ({
            let (after, first) = run(i2c, system, board, begun(i2c, roots), n);
            let (still, second) = run(i2c, system, after, begun(i2c, roots), second_steps(i2c));
            &&& still == after
            &&& second matches PassState::At { report: r2, stage, .. } && stage == Stage::Finished
                && (first matches PassState::At { report: r1, .. } && {
                &&& r2.created.len() == 0
                &&& r2.already_present.len() == i2c.muxes@.len() + i2c.devices@.len()
                &&& r2.map == r1.map
                &&& r2.roots == r1.roots
                &&& r2.root_bus == r1.root_bus
            })
        }),
        never_creates(i2c, system, roots, run(i2c, system, board, begun(i2c, roots), n).0),
{
    lemma_run_keeps(i2c, system, roots, board, n);
    let (after, first) = run(i2c, system, board, begun(i2c, roots), n);
    assert forall|k: nat| k <= second_steps(i2c) implies creates_nothing(
        (#[trigger] run(i2c, system, after, begun(i2c, roots), k)).1,
    ) by {
        lemma_second_run(i2c, system, roots, after, k);
    }
    lemma_second_run(i2c, system, roots, after, second_steps(i2c));
}

/// A pass over the PSUs: what is there, the report so far, and where the pass
/// stands.
pub struct PsuState {
    pub present: Set<(u32, u32)>,
    pub report: ReportModel,
    pub pass: PsuPass,
}

/// What a board answers a pass over the PSUs: a PSU that is fitted can be
/// created, and one that is not is refused.
pub open spec fn psu_reply(
    psus: Seq<Psu>,
    fitted: Set<(u32, u32)>,
    why: String,
    s: PsuState,
) -> Event {
    match s.pass.stage {
        PsuStage::Probe(i) => Event::Present(
            s.present.contains((s.pass.bus, psus[i as int].address)),
        ),
        PsuStage::Create(i) => if fitted.contains((s.pass.bus, psus[i as int].address)) {
            Event::Done
        } else {
            Event::Refused(why)
        },
        PsuStage::Finished => Event::Done,
    }
}

/// A pass over the PSUs, one step later: what is created appears.
pub open spec fn psu_stepped(
    psus: Seq<Psu>,
    fitted: Set<(u32, u32)>,
    why: String,
    s: PsuState,
) -> PsuState {
    let event = psu_reply(psus, fitted, why, s);
    let report = psu_report(psus, s.report, s.pass, event);
    PsuState {
        present: match s.pass.stage {
            PsuStage::Create(i) => if event is Done {
                s.present.insert((s.pass.bus, psus[i as int].address))
            } else {
                s.present
            },
            _ => s.present,
        },
        report,
        pass: psu_after(psus, report, s.pass, event).0,
    }
}

/// A pass over the PSUs, `n` steps after its begin.
pub open spec fn psu_run(
    psus: Seq<Psu>,
    fitted: Set<(u32, u32)>,
    why: String,
    present: Set<(u32, u32)>,
    report: ReportModel,
    n: nat,
) -> PsuState
    decreases n,
{
    if n == 0 {
        PsuState { present, report, pass: psu_next(psus, report, 0).0 }
    } else {
        psu_stepped(psus, fitted, why, psu_run(psus, fitted, why, present, report, (n - 1) as nat))
    }
}

/// Of the first `n` PSUs those that are fitted are there.
spec fn psus_there(
    psus: Seq<Psu>,
    fitted: Set<(u32, u32)>,
    present: Set<(u32, u32)>,
    r: ReportModel,
    n: int,
) -> bool {
    forall|j: int|
        #![trigger psus[j]]
        0 <= j < n ==> (resolved_ref(r.map, r.roots, psus[j].bus) matches Some(bus)
            ==> fitted.contains((bus, psus[j].address)) ==> present.contains(
            (bus, psus[j].address),
        ))
}

spec fn psu_keeps(
    psus: Seq<Psu>,
    fitted: Set<(u32, u32)>,
    map: Map<u32, u32>,
    roots: Map<Seq<char>, u32>,
    s: PsuState,
) -> bool {
    &&& s.report.map == map
    &&& s.report.roots == roots
    &&& match s.pass.stage {
        PsuStage::Probe(i) => i < psus.len() && resolved_ref(map, roots, psus[i as int].bus)
            == Some(s.pass.bus) && psus_there(psus, fitted, s.present, s.report, i as int),
        PsuStage::Create(i) => i < psus.len() && resolved_ref(map, roots, psus[i as int].bus)
            == Some(s.pass.bus) && psus_there(psus, fitted, s.present, s.report, i as int),
        PsuStage::Finished => psus_there(psus, fitted, s.present, s.report, psus.len() as int),
    }
}

/// Between a PSU and the next whose bus is known there is none to look at.
proof fn lemma_psu_next_keeps(
    psus: Vec<Psu>,
    fitted: Set<(u32, u32)>,
    present: Set<(u32, u32)>,
    r: ReportModel,
    i: int,
)
    requires
        0 <= i <= psus@.len(),
        psus_there(psus@, fitted, present, r, i),
    ensures
        psu_keeps(
            psus@,
            fitted,
            r.map,
            r.roots,
            PsuState { present, report: r, pass: psu_next(psus@, r, i).0 },
        ),
    decreases psus@.len() - i,
{
    assert(psus.len() <= usize::MAX);
    if i < psus@.len() && resolved_ref(r.map, r.roots, psus@[i].bus) is None {
        lemma_psu_next_keeps(psus, fitted, present, r, i + 1);
        assert(psu_at(psus@, r, i) == psu_at(psus@, r, i + 1));
    }
}

proof fn lemma_psu_step_keeps(
    psus: Vec<Psu>,
    fitted: Set<(u32, u32)>,
    why: String,
    map: Map<u32, u32>,
    roots: Map<Seq<char>, u32>,
    s: PsuState,
)
    requires
        psu_keeps(psus@, fitted, map, roots, s),
    ensures
        psu_keeps(psus@, fitted, map, roots, psu_stepped(psus@, fitted, why, s)),
        s.present.subset_of(psu_stepped(psus@, fitted, why, s).present),
{
    let t = psu_stepped(psus@, fitted, why, s);
    match s.pass.stage {
        PsuStage::Probe(i) => {
            if psu_reply(psus@, fitted, why, s) == Event::Present(true) {
                assert(psus_there(psus@, fitted, t.present, t.report, i + 1));
                lemma_psu_next_keeps(psus, fitted, t.present, t.report, i + 1);
            }
        },
        PsuStage::Create(i) => {
            assert(psus_there(psus@, fitted, t.present, t.report, i + 1));
            lemma_psu_next_keeps(psus, fitted, t.present, t.report, i + 1);
        },
        PsuStage::Finished => {},
    }
}

proof fn lemma_psu_run_keeps(
    psus: Vec<Psu>,
    fitted: Set<(u32, u32)>,
    why: String,
    present: Set<(u32, u32)>,
    report: ReportModel,
    n: nat,
)
    ensures
        psu_keeps(
            psus@,
            fitted,
            report.map,
            report.roots,
            psu_run(psus@, fitted, why, present, report, n),
        ),
    decreases n,
{
    if n == 0 {
        lemma_psu_next_keeps(psus, fitted, present, report, 0);
    } else {
        lemma_psu_run_keeps(psus, fitted, why, present, report, (n - 1) as nat);
        lemma_psu_step_keeps(
            psus,
            fitted,
            why,
            report.map,
            report.roots,
            psu_run(psus@, fitted, why, present, report, (n - 1) as nat),
        );
    }
}

/// A pass over the PSUs is idempotent: where a first pass came to its end, a
/// second one over the same buses creates nothing, however far it goes, and
/// leaves what is there as it is. A PSU that is not fitted is refused again.
pub proof fn lemma_second_psu_pass_creates_nothing(
    psus: Vec<Psu>,
    fitted: Set<(u32, u32)>,
    why: String,
    present: Set<(u32, u32)>,
    first: ReportModel,
    n: nat,
    second: ReportModel,
    m: nat,
)
    requires
        psu_run(psus@, fitted, why, present, first, n).pass.stage == PsuStage::Finished,
        second.map == first.map,
        second.roots == first.roots,
    ensures
        ({
            let after = psu_run(psus@, fitted, why, present, first, n).present;
            let s = psu_run(psus@, fitted, why, after, second, m);
            s.present == after && s.report.created == second.created
        }),
    decreases m,
{
    let after = psu_run(psus@, fitted, why, present, first, n).present;
    lemma_psu_run_keeps(psus, fitted, why, present, first, n);
    if m > 0 {
        lemma_second_psu_pass_creates_nothing(
            psus,
            fitted,
            why,
            present,
            first,
            n,
            second,
            (m - 1) as nat,
        );
        lemma_psu_run_keeps(psus, fitted, why, after, second, (m - 1) as nat);
        lemma_psu_creates_absent(psus, fitted, why, after, second, (m - 1) as nat);
        let s = psu_run(psus@, fitted, why, after, second, (m - 1) as nat);
        if let PsuStage::Create(i) = s.pass.stage {
            assert(psus_there(
                psus@,
                fitted,
                after,
                psu_run(psus@, fitted, why, present, first, n).report,
                psus@.len() as int,
            ));
            assert(resolved_ref(first.map, first.roots, psus@[i as int].bus) == Some(s.pass.bus));
        }
    }
}

/// Only what is not there comes to be created.
proof fn lemma_psu_creates_absent(
    psus: Vec<Psu>,
    fitted: Set<(u32, u32)>,
    why: String,
    present: Set<(u32, u32)>,
    report: ReportModel,
    n: nat,
)
    ensures
        ({
            let s = psu_run(psus@, fitted, why, present, report, n);
            s.pass.stage matches PsuStage::Create(i) ==> !s.present.contains(
                (s.pass.bus, psus@[i as int].address),
            )
        }),
{
    if n > 0 {
        let s = psu_run(psus@, fitted, why, present, report, (n - 1) as nat);
        let event = psu_reply(psus@, fitted, why, s);
        let r = psu_report(psus@, s.report, s.pass, event);
        match s.pass.stage {
            PsuStage::Probe(i) => {
                if event == Event::Present(true) {
                    assert(!(psu_next(psus@, r, i + 1).0.stage is Create));
                }
            },
            PsuStage::Create(i) => {
                assert(!(psu_next(psus@, r, i + 1).0.stage is Create));
            },
            PsuStage::Finished => {},
        }
    }
}

/// A mux claims only the bus numbers it declares: every other number resolves
/// as it did before its channels were read.
pub proof fn lemma_mux_claims_its_own(
    map: Map<u32, u32>,
    mux: I2cMux,
    list: Seq<(u32, u32)>,
    n: int,
    declared: u32,
)
    requires
        0 <= n <= list.len(),
        channels_fit(mux, list),
        !(mux.child_bus_base <= declared < mux.child_bus_base + mux.channels),
    ensures
        resolved(with_channels(map, mux, list, n), declared) == resolved(map, declared),
    decreases n,
{
    if n > 0 {
        lemma_mux_claims_its_own(map, mux, list, n - 1, declared);
    }
}

/// A mux without channel links leaves every bus number as declared.
pub proof fn lemma_no_links_no_change(map: Map<u32, u32>, mux: I2cMux)
    ensures
        with_channels(map, mux, Seq::empty(), 0) == map,
{
}

} // verus!
