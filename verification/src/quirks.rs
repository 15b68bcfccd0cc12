//! Escape hatch for boards whose CPLD/LED/reset behavior can't be expressed
//! as manifest data. The default driver does nothing; a board needing
//! special handling registers a named driver here and selects it via
//! `[hardware.quirks] driver = "<name>"`.

use vstd::prelude::*;

use crate::sysinit::SOC_CMIC_DEVICE_SUFFIX;
use crate::text::{cat2, cat3, cat4, cat6, ends_with, hex, quoted, same_text};

verus! {

/// A hook of a quirks driver that failed.
#[derive(Debug)]
pub struct QuirkError {
    pub quirk: &'static str,
    pub stage: &'static str,
    pub message: String,
}

/// The message of a failed hook.
pub open spec fn quirk_text(e: QuirkError) -> Seq<char> {
    "quirk "@ + e.quirk@ + " failed during "@ + e.stage@ + ": "@ + e.message@
}

impl QuirkError {
    pub fn text(&self) -> (r: String)
        ensures
            r@ == quirk_text(*self),
    {
        cat6("quirk ", self.quirk, " failed during ", self.stage, ": ", &self.message)
    }
}

/// The registered quirks drivers.
#[derive(Debug, Clone, Copy, PartialEq, Eq, Structural)]
pub enum Driver {
    Generic,
    Haliburton,
    As4610,
}

/// The registry name of a driver.
pub open spec fn driver_name(d: Driver) -> Seq<char> {
    match d {
        Driver::Generic => "generic"@,
        Driver::Haliburton => "haliburton"@,
        Driver::As4610 => "as4610"@,
    }
}

/// The driver registered under a name.
pub open spec fn driver_named(name: Seq<char>) -> Option<Driver> {
    if name == driver_name(Driver::Generic) {
        Some(Driver::Generic)
    } else if name == driver_name(Driver::Haliburton) {
        Some(Driver::Haliburton)
    } else if name == driver_name(Driver::As4610) {
        Some(Driver::As4610)
    } else {
        None
    }
}

/// The points of daemon lifecycles at which a driver's hooks run.
#[derive(Debug, Clone, Copy, PartialEq, Eq, Structural)]
pub enum HookStage {
    /// In syncd before the SAI switch is created.
    PreAsicInit,
    /// In syncd after the SAI switch is created.
    PostAsicInit,
    /// In pmon after the i2c topology is instantiated.
    PostHwInit,
}

/// What a hook does. Hooks are idempotent: daemons may restart at any time.
#[derive(Debug, Clone, Copy, PartialEq, Eq, Structural)]
pub enum Hook {
    Nothing,
    /// Unbind the CMICd, then deassert the external PHYs' reset.
    ReleaseAsic,
    /// Put the board's LEDs into normal operation. LEDs are cosmetic: what
    /// fails is logged, and never fails pmon.
    LightLeds,
}

/// What a driver does at a point of a daemon's lifecycle. Hooks default
/// to nothing; a driver has only those its board needs.
pub open spec fn driver_hook(d: Driver, stage: HookStage) -> Hook {
    if d == Driver::As4610 && stage == HookStage::PreAsicInit {
        Hook::ReleaseAsic
    } else if d == Driver::Haliburton && stage == HookStage::PostHwInit {
        Hook::LightLeds
    } else {
        Hook::Nothing
    }
}

/// Board-specific hooks invoked at well-defined points of daemon lifecycles.
pub trait PlatformQuirks {
    /// The driver that this is.
    spec fn driver(&self) -> Driver;

    /// Registry name, matching `[hardware.quirks] driver`.
    fn name(&self) -> (r: &'static str)
        ensures
            r@ == driver_name(self.driver()),
    ;

    /// Runs in syncd before the SAI switch is created (e.g. take the ASIC
    /// out of CPLD-held reset).
    fn pre_asic_init(&self) -> (r: Hook)
        ensures
            r == driver_hook(self.driver(), HookStage::PreAsicInit),
    ;

    /// Runs in syncd after the SAI switch is created (e.g. load LED
    /// microcode that SAI itself does not handle).
    fn post_asic_init(&self) -> (r: Hook)
        ensures
            r == driver_hook(self.driver(), HookStage::PostAsicInit),
    ;

    /// Runs in pmon after the i2c topology is instantiated.
    fn post_hw_init(&self) -> (r: Hook)
        ensures
            r == driver_hook(self.driver(), HookStage::PostHwInit),
    ;
}

/// The default: a board fully described by its manifest.
pub struct GenericQuirks;

/// Celestica E1031 (Haliburton).
pub struct HaliburtonQuirks;

/// Edgecore AS4610-54T (Accton).
pub struct As4610Quirks;

impl PlatformQuirks for GenericQuirks {
    open spec fn driver(&self) -> Driver {
        Driver::Generic
    }

    fn name(&self) -> (r: &'static str) {
        "generic"
    }

    fn pre_asic_init(&self) -> (r: Hook) {
        Hook::Nothing
    }

    fn post_asic_init(&self) -> (r: Hook) {
        Hook::Nothing
    }

    fn post_hw_init(&self) -> (r: Hook) {
        Hook::Nothing
    }
}

impl PlatformQuirks for HaliburtonQuirks {
    open spec fn driver(&self) -> Driver {
        Driver::Haliburton
    }

    fn name(&self) -> (r: &'static str) {
        "haliburton"
    }

    fn pre_asic_init(&self) -> (r: Hook) {
        Hook::Nothing
    }

    fn post_asic_init(&self) -> (r: Hook) {
        Hook::Nothing
    }

    fn post_hw_init(&self) -> (r: Hook) {
        Hook::LightLeds
    }
}

impl PlatformQuirks for As4610Quirks {
    open spec fn driver(&self) -> Driver {
        Driver::As4610
    }

    fn name(&self) -> (r: &'static str) {
        "as4610"
    }

    fn pre_asic_init(&self) -> (r: Hook) {
        Hook::ReleaseAsic
    }

    fn post_asic_init(&self) -> (r: Hook) {
        Hook::Nothing
    }

    fn post_hw_init(&self) -> (r: Hook) {
        Hook::Nothing
    }
}

impl PlatformQuirks for Driver {
    open spec fn driver(&self) -> Driver {
        *self
    }

    fn name(&self) -> (r: &'static str) {
        match self {
            Driver::Generic => GenericQuirks.name(),
            Driver::Haliburton => HaliburtonQuirks.name(),
            Driver::As4610 => As4610Quirks.name(),
        }
    }

    fn pre_asic_init(&self) -> (r: Hook) {
        match self {
            Driver::Generic => GenericQuirks.pre_asic_init(),
            Driver::Haliburton => HaliburtonQuirks.pre_asic_init(),
            Driver::As4610 => As4610Quirks.pre_asic_init(),
        }
    }

    fn post_asic_init(&self) -> (r: Hook) {
        match self {
            Driver::Generic => GenericQuirks.post_asic_init(),
            Driver::Haliburton => HaliburtonQuirks.post_asic_init(),
            Driver::As4610 => As4610Quirks.post_asic_init(),
        }
    }

    fn post_hw_init(&self) -> (r: Hook) {
        match self {
            Driver::Generic => GenericQuirks.post_hw_init(),
            Driver::Haliburton => HaliburtonQuirks.post_hw_init(),
            Driver::As4610 => As4610Quirks.post_hw_init(),
        }
    }
}

/// Look up a quirks driver by registry name.
pub fn by_name(name: &str) -> (r: Option<Driver>)
    ensures
        r == driver_named(name@),
{
    if same_text(name, "generic") {
        Some(Driver::Generic)
    } else if same_text(name, "haliburton") {
        Some(Driver::Haliburton)
    } else if same_text(name, "as4610") {
        Some(Driver::As4610)
    } else {
        None
    }
}

/// Names known to the registry, for lint diagnostics.
pub fn known_names() -> (r: [&'static str; 3])
    ensures
        r@.len() == 3,
        r@[0]@ == driver_name(Driver::Generic),
        r@[1]@ == driver_name(Driver::Haliburton),
        r@[2]@ == driver_name(Driver::As4610),
{
    ["generic", "haliburton", "as4610"]
}

/// Every registered name resolves to the driver of that name.
pub proof fn lemma_registry_resolves(d: Driver)
    ensures
        driver_named(driver_name(d)) == Some(d),
{
    reveal_strlit("generic");
    reveal_strlit("haliburton");
    reveal_strlit("as4610");
    assert("generic"@.len() == 7 && "haliburton"@.len() == 10 && "as4610"@.len() == 6);
}

// -------------------------------------------------------------- Haliburton

/// The LED registers of the Celestica E1031's SMC CPLD (LPC io ports), and what
/// they are set to. The CPLD powers up with `LED_OPMOD = 0`, a forced-default
/// mode that drives the SFP+ port LEDs solid green and ignores the system-LED
/// register. In normal operation (1) port LEDs follow their real sources (PHY
/// pins for copper, the ASIC LED processor for SFP+), and the system LEDs
/// follow `LED_FPS` (`[3:2]` status, `[1:0]` master, 1 = green), which must
/// therefore be driven or it reads back as "off". `FAN_LED_*`: 0 = green.
pub fn led_writes() -> (r: [(&'static str, u64, u8); 5])
    ensures
        r@[0].0@ == "LED_OPMOD normal mode"@ && r@[0].1 == 0x0208 && r@[0].2 == 0x01,
        r@[1].0@ == "LED_FPS system green"@ && r@[1].1 == 0x020a && r@[1].2 == 0x05,
        r@[2].0@ == "FAN_LED_1 green"@ && r@[2].1 == 0x0205 && r@[2].2 == 0x00,
        r@[3].0@ == "FAN_LED_2 green"@ && r@[3].1 == 0x0206 && r@[3].2 == 0x00,
        r@[4].0@ == "FAN_LED_3 green"@ && r@[4].1 == 0x0207 && r@[4].2 == 0x00,
{
    [
        ("LED_OPMOD normal mode", 0x0208u64, 0x01u8),
        ("LED_FPS system green", 0x020au64, 0x05u8),
        ("FAN_LED_1 green", 0x0205u64, 0x00u8),
        ("FAN_LED_2 green", 0x0206u64, 0x00u8),
        ("FAN_LED_3 green", 0x0207u64, 0x00u8),
    ]
}

// ------------------------------------------------------------------ AS4610

/// Is a platform device the on-die CMIC? The kernel's `iproc_cmic` platform
/// driver binds it at boot, and the BDE cannot claim the device while it is
/// bound, so it is unbound first.
pub fn is_cmic(device: &str) -> (r: bool)
    ensures
        r == crate::text::finishes_with(device@, SOC_CMIC_DEVICE_SUFFIX@),
{
    ends_with(device, SOC_CMIC_DEVICE_SUFFIX)
}

/// The platform driver holding the on-die CMIC.
pub const IPROC_CMIC_DRIVER: &'static str = "/sys/bus/platform/drivers/iproc_cmic";

/// Manifest name of the i2c root the CPLD sits on. The manifest owns the
/// adapter matching; the quirk only needs to know which root it declared.
pub const AS4610_CPLD_ROOT: &'static str = "cpld-bus";

/// CPLD i2c address (device tree: `cpld@30` on `i2c0`).
pub const AS4610_CPLD_ADDR: u32 = 0x30;

/// The PHY reset-deassert sequence: (register, value, what it releases).
/// Applied in order; the CPLD latches each independently. The board CPLD
/// powers up holding the 48 BCM54282 copper PHYs and the 4 BCM84758 SFP+ PHYs
/// in reset. The SDK's PHY probe then finds nothing and every port
/// stays down, with no error that points at the CPLD.
pub const AS4610_PHY_RESET_DEASSERT: [(u8, u8, &'static str); 5] = [
    (0x07, 0x02, "copper PHY bank reset"),
    (0x08, 0x02, "copper PHY bank reset"),
    (0x0d, 0x01, "SFP+ PHY reset"),
    (0x19, 0x00, "PHY power-down"),
    (0x1b, 0x00, "PHY power-down"),
];

/// Where the deassert sequence stands, by the number of the register.
#[derive(Debug, Clone, Copy, PartialEq, Eq, Structural)]
pub enum PhyStage {
    /// The register is being read.
    Read(usize),
    /// It is being written.
    Write(usize),
    /// It is being read back.
    ReadBack(usize),
    Finished,
}

/// What the sequence wants done next on the CPLD.
#[derive(Debug, Clone, Copy, PartialEq, Eq, Structural)]
pub enum PhyAction {
    Read { register: u8 },
    Write { register: u8, value: u8 },
    Finished,
}

/// How an access to the CPLD came out.
#[derive(Debug)]
pub enum PhyEvent {
    /// What a register holds.
    Value(u8),
    /// A register was written.
    Written,
    /// The access failed, with the reason.
    Failed(String),
}

/// The register, the value and the purpose of a step.
pub open spec fn phy_register(i: int) -> u8 {
    AS4610_PHY_RESET_DEASSERT@[i].0
}

pub open spec fn phy_value(i: int) -> u8 {
    AS4610_PHY_RESET_DEASSERT@[i].1
}

pub open spec fn phy_purpose(i: int) -> Seq<char> {
    AS4610_PHY_RESET_DEASSERT@[i].2@
}

/// A hex byte: `0x1a`.
pub open spec fn byte_text(b: u8) -> Seq<char> {
    "0x"@ + crate::text::hex_text(b as nat, 2)
}

fn byte_shown(b: u8) -> (r: String)
    ensures
        r@ == byte_text(b),
{
    cat2("0x", &hex(b as u64, 2))
}

/// Where the sequence goes on, or the message it fails with.
pub enum PhyNext {
    At { stage: PhyStage, action: PhyAction },
    Failed(Seq<char>),
}

/// What is done from the `i`th register on.
pub open spec fn at_register(i: int) -> PhyNext {
    if i >= 5 {
        PhyNext::At { stage: PhyStage::Finished, action: PhyAction::Finished }
    } else {
        PhyNext::At {
            stage: PhyStage::Read(i as usize),
            action: PhyAction::Read { register: phy_register(i) },
        }
    }
}

/// What is done after an access. A register already at its target value is
/// skipped, so a syncd restart does not bounce the PHYs; a register that
/// cannot be read first is written all the same; every write is read back.
pub open spec fn phy_after(stage: PhyStage, event: PhyEvent) -> PhyNext {
    match stage {
        PhyStage::Read(i) => if event == PhyEvent::Value(phy_value(i as int)) {
            at_register(i + 1)
        } else {
            PhyNext::At {
                stage: PhyStage::Write(i),
                action: PhyAction::Write {
                    register: phy_register(i as int),
                    value: phy_value(i as int),
                },
            }
        },
        PhyStage::Write(i) => match event {
            PhyEvent::Failed(e) => PhyNext::Failed(
                "CPLD write "@ + byte_text(phy_register(i as int)) + "="@ + byte_text(
                    phy_value(i as int),
                ) + " ("@ + phy_purpose(i as int) + "): "@ + e@,
            ),
            _ => PhyNext::At {
                stage: PhyStage::ReadBack(i),
                action: PhyAction::Read { register: phy_register(i as int) },
            },
        },
        PhyStage::ReadBack(i) => match event {
            PhyEvent::Value(v) => if v == phy_value(i as int) {
                at_register(i + 1)
            } else {
                PhyNext::Failed(
                    "CPLD register "@ + byte_text(phy_register(i as int)) + " reads back "@
                        + byte_text(v) + " after writing "@ + byte_text(phy_value(i as int))
                        + " ("@ + phy_purpose(i as int)
                        + ") \u{2014} the PHYs will stay in reset"@,
                )
            },
            PhyEvent::Failed(e) => PhyNext::Failed(
                "CPLD read-back of "@ + byte_text(phy_register(i as int)) + " ("@ + phy_purpose(
                    i as int,
                ) + "): "@ + e@,
            ),
            PhyEvent::Written => PhyNext::At {
                stage,
                action: PhyAction::Read { register: phy_register(i as int) },
            },
        },
        PhyStage::Finished => PhyNext::At { stage, action: PhyAction::Finished },
    }
}

/// The stage's number is that of a register.
pub open spec fn phy_fits(stage: PhyStage) -> bool {
    match stage {
        PhyStage::Read(i) => i < 5,
        PhyStage::Write(i) => i < 5,
        PhyStage::ReadBack(i) => i < 5,
        PhyStage::Finished => true,
    }
}

fn phy_error(message: String) -> (r: QuirkError)
    ensures
        r.quirk@ == "as4610"@,
        r.stage@ == "pre_asic_init"@,
        r.message == message,
{
    QuirkError { quirk: "as4610", stage: "pre_asic_init", message }
}

fn to_register(i: usize) -> (r: (PhyStage, PhyAction))
    requires
        i <= 5,
    ensures
        phy_fits(r.0),
        at_register(i as int) == (PhyNext::At { stage: r.0, action: r.1 }),
{
    if i >= 5 {
        (PhyStage::Finished, PhyAction::Finished)
    } else {
        (
            PhyStage::Read(i),
            PhyAction::Read { register: AS4610_PHY_RESET_DEASSERT[i].0 },
        )
    }
}

/// Begin to write the CPLD's PHY reset-deassert sequence, on the bus that the
/// manifest's CPLD root was found at.
pub fn deassert_phy_reset(bus: Option<u32>) -> (r: Result<(PhyStage, PhyAction), QuirkError>)
    ensures
        match r {
            Ok((stage, action)) => bus is Some && at_register(0) == (PhyNext::At { stage, action }),
            Err(e) => bus is None && e.quirk@ == "as4610"@ && e.stage@ == "pre_asic_init"@
                && e.message@ == "cannot locate the i2c root "@ + crate::text::quoted_text(
                AS4610_CPLD_ROOT@,
            ) + " the CPLD sits on (is the SoC i2c driver loaded?)"@,
        },
{
    match bus {
        Some(_) => Ok(to_register(0)),
        None => Err(
            phy_error(
                cat3(
                    "cannot locate the i2c root ",
                    &quoted(AS4610_CPLD_ROOT),
                    " the CPLD sits on (is the SoC i2c driver loaded?)",
                ),
            ),
        ),
    }
}

/// What the sequence does after an access, verifying each write by
/// reading it back. A dropped write here means every port comes up dead
/// with nothing in the log pointing at the CPLD, so pay the read.
pub fn next_phy_step(stage: PhyStage, event: &PhyEvent) -> (r: Result<
    (PhyStage, PhyAction),
    QuirkError,
>)
    requires
        phy_fits(stage),
    ensures
        match r {
            Ok((s, a)) => phy_fits(s) && phy_after(stage, *event) == (PhyNext::At {
                stage: s,
                action: a,
            }),
            Err(e) => phy_after(stage, *event) == PhyNext::Failed(e.message@) && e.quirk@
                == "as4610"@ && e.stage@ == "pre_asic_init"@,
        },
{
    match stage {
        PhyStage::Read(i) => {
            let (register, value, what) = AS4610_PHY_RESET_DEASSERT[i];
            let skip: bool = match event {
                PhyEvent::Value(v) => *v == value,
                _ => false,
            };
            if skip {
                Ok(to_register(i + 1))
            } else {
                Ok((PhyStage::Write(i), PhyAction::Write { register, value }))
            }
        },
        PhyStage::Write(i) => {
            let (register, value, what) = AS4610_PHY_RESET_DEASSERT[i];
            match event {
                PhyEvent::Failed(e) => {
                    let front = cat6(
                        "CPLD write ",
                        &byte_shown(register),
                        "=",
                        &byte_shown(value),
                        " (",
                        what,
                    );
                    Err(phy_error(cat3(&front, "): ", e)))
                },
                _ => Ok((PhyStage::ReadBack(i), PhyAction::Read { register })),
            }
        },
        PhyStage::ReadBack(i) => {
            let (register, value, what) = AS4610_PHY_RESET_DEASSERT[i];
            match event {
                PhyEvent::Value(v) => if *v == value {
                    Ok(to_register(i + 1))
                } else {
                    let front = cat6(
                        "CPLD register ",
                        &byte_shown(register),
                        " reads back ",
                        &byte_shown(*v),
                        " after writing ",
                        &byte_shown(value),
                    );
                    Err(
                        phy_error(
                            cat4(
                                &front,
                                " (",
                                what,
                                ") \u{2014} the PHYs will stay in reset",
                            ),
                        ),
                    )
                },
                PhyEvent::Failed(e) => Err(
                    phy_error(
                        cat6("CPLD read-back of ", &byte_shown(register), " (", what, "): ", e),
                    ),
                ),
                PhyEvent::Written => Ok((stage, PhyAction::Read { register })),
            }
        },
        PhyStage::Finished => Ok((stage, PhyAction::Finished)),
    }
}

/// A register that is already deasserted is left alone: the sequence goes on
/// to the next without a write.
pub proof fn lemma_deasserted_is_left_alone(i: usize)
    requires
        i < 5,
    ensures
        phy_after(PhyStage::Read(i), PhyEvent::Value(phy_value(i as int))) == at_register(i + 1),
        at_register(i + 1) matches PhyNext::At { action, .. } && !(action is Write),
{
}

/// A write that does not stick is detected: the sequence goes past a register
/// only when the register was read at its target value.
pub proof fn lemma_writes_are_read_back(stage: PhyStage, event: PhyEvent, i: usize)
    requires
        phy_fits(stage),
        stage == PhyStage::Read(i) || stage == PhyStage::Write(i) || stage == PhyStage::ReadBack(i),
        phy_after(stage, event) == at_register(i + 1),
    ensures
        event == PhyEvent::Value(phy_value(i as int)),
{
}

/// What a CPLD answers the sequence: its registers hold what was written.
pub open spec fn cpld_reply(registers: Map<u8, u8>, stage: PhyStage) -> PhyEvent {
    match stage {
        PhyStage::Read(i) => PhyEvent::Value(registers[phy_register(i as int)]),
        PhyStage::ReadBack(i) => PhyEvent::Value(registers[phy_register(i as int)]),
        _ => PhyEvent::Written,
    }
}

/// The registers once a stage is done.
pub open spec fn cpld_after(registers: Map<u8, u8>, stage: PhyStage) -> Map<u8, u8> {
    match stage {
        PhyStage::Write(i) => registers.insert(phy_register(i as int), phy_value(i as int)),
        _ => registers,
    }
}

/// The registers of a CPLD and where the sequence stands, `n` steps after its
/// begin.
pub open spec fn phy_run(registers: Map<u8, u8>, n: nat) -> (Map<u8, u8>, PhyNext)
    decreases n,
{
    if n == 0 {
        (registers, at_register(0))
    } else {
        let (now, next) = phy_run(registers, (n - 1) as nat);
        match next {
            PhyNext::At { stage, .. } => (
                cpld_after(now, stage),
                phy_after(stage, cpld_reply(now, stage)),
            ),
            PhyNext::Failed(e) => (now, next),
        }
    }
}

/// The first `n` registers of the sequence hold their values.
pub open spec fn deasserted(registers: Map<u8, u8>, n: int) -> bool {
    forall|j: int| 0 <= j < n ==> registers[#[trigger] phy_register(j)] == phy_value(j)
}

/// What the sequence knows where it stands.
spec fn phy_keeps(registers: Map<u8, u8>, next: PhyNext) -> bool {
    next matches PhyNext::At { stage, .. } && phy_fits(stage) && match stage {
        PhyStage::Read(i) => deasserted(registers, i as int),
        PhyStage::Write(i) => deasserted(registers, i as int),
        PhyStage::ReadBack(i) => deasserted(registers, i + 1),
        PhyStage::Finished => deasserted(registers, 5),
    }
}

proof fn lemma_registers_differ(i: int, j: int)
    requires
        0 <= i < j < 5,
    ensures
        phy_register(i) != phy_register(j),
{
}

/// On a CPLD that keeps what is written the sequence never fails, and when it
/// comes to its end every register holds its value.
pub proof fn lemma_sequence_deasserts(registers: Map<u8, u8>, n: nat)
    ensures
        phy_run(registers, n).1 is At,
        phy_run(registers, n).1 matches PhyNext::At { stage: PhyStage::Finished, .. } ==> deasserted(
            phy_run(registers, n).0,
            5,
        ),
{
    lemma_phy_run_keeps(registers, n);
}

proof fn lemma_phy_run_keeps(registers: Map<u8, u8>, n: nat)
    ensures
        phy_keeps(phy_run(registers, n).0, phy_run(registers, n).1),
    decreases n,
{
    if n > 0 {
        lemma_phy_run_keeps(registers, (n - 1) as nat);
        let (now, next) = phy_run(registers, (n - 1) as nat);
        let after = phy_run(registers, n).0;
        if let PhyNext::At { stage, .. } = next {
            match stage {
                PhyStage::Read(i) => {
                    if now[phy_register(i as int)] == phy_value(i as int) {
                        assert(deasserted(now, i + 1));
                    }
                },
                PhyStage::Write(i) => {
                    assert forall|j: int| 0 <= j < i + 1 implies after[#[trigger] phy_register(j)]
                        == phy_value(j) by {
                        if j < i {
                            lemma_registers_differ(j, i as int);
                        }
                    }
                },
                _ => {},
            }
        }
    }
}

/// Registers that are all deasserted are left alone: the whole sequence reads
/// each of them once and writes none, so a restart does not bounce the PHYs.
pub proof fn lemma_deasserted_run_writes_nothing(registers: Map<u8, u8>, n: nat)
    requires
        deasserted(registers, 5),
        n <= 5,
    ensures
        phy_run(registers, n) == (registers, at_register(n as int)),
        at_register(n as int) matches PhyNext::At { action, .. } && !(action is Write),
    decreases n,
{
    if n > 0 {
        lemma_deasserted_run_writes_nothing(registers, (n - 1) as nat);
        assert(registers[phy_register(n - 1)] == phy_value(n - 1));
    }
}

} // verus!
