//! Manifest validation beyond what parsing can express, surfaced as
//! diagnostics for `hemlockctl platform lint`.
//!
//! Errors are structural problems that would break daemons at runtime.
//! Warnings cover things a fresh checkout legitimately lacks — most notably
//! vendor blobs (config.bcm, LED microcode), which are never committed.
//!
//! What lint reports is stated section by section as a sequence of
//! findings; [`lint_findings`] puts the sections in order.

use vstd::prelude::*;

use crate::platform::{file_name, is_rooted, Platform, PortDef};
use crate::quirks;
use crate::schema::{
    AsicAttach, BusRef, FanControl, FanDef, HardwareSection, I2cDevice, I2cMux, I2cRoot,
    I2cSection, I2cWrite, PlatformSection, PortGroup, Psu, SaiBackendKind, SaiSection,
    ThermalSection, ThermalSensor, Transceiver, DEFAULT_ROOT_NAME,
};
use crate::text::{
    cat2, cat3, cat4, cat5, cat6, chars_of, decimal, join, quoted, quoted_path, same_text,
    starts_with, is_among, is_text_before, trim,
};

verus! {

#[derive(Debug, Clone, Copy, PartialEq, Eq, Structural)]
pub enum Severity {
    Error,
    Warning,
}

#[derive(Debug)]
pub struct Diagnostic {
    pub severity: Severity,
    pub message: String,
}

/// A diagnostic as a mathematical value.
pub struct Finding {
    pub severity: Severity,
    pub message: Seq<char>,
}

impl DeepView for Diagnostic {
    type V = Finding;

    open spec fn deep_view(&self) -> Finding {
        Finding { severity: self.severity, message: self.message@ }
    }
}

/// How a diagnostic is shown.
pub open spec fn finding_text(f: Finding) -> Seq<char> {
    (match f.severity {
        Severity::Error => "error"@,
        Severity::Warning => "warning"@,
    }) + ": "@ + f.message
}

impl Diagnostic {
    pub fn shown(&self) -> (r: String)
        ensures
            r@ == finding_text(self.deep_view()),
    {
        let tag = match self.severity {
            Severity::Error => "error",
            Severity::Warning => "warning",
        };
        cat3(tag, ": ", self.message.as_str())
    }
}

#[derive(Debug)]
pub struct LintReport {
    pub diagnostics: Vec<Diagnostic>,
}

impl Default for LintReport {
    fn default() -> (r: Self)
        ensures
            r.findings() == Seq::<Finding>::empty(),
    {
        let r = LintReport { diagnostics: Vec::new() };
        assert(r.findings() =~= Seq::<Finding>::empty());
        r
    }
}

impl LintReport {
    /// The diagnostics of the report, in order.
    pub open spec fn findings(&self) -> Seq<Finding> {
        self.diagnostics.deep_view()
    }

    /// A report passes when none of its diagnostics is an error.
    pub fn passed(&self) -> (r: bool)
        ensures
            r == all_pass(self.findings()),
    {
        let mut i: usize = 0;
        while i < self.diagnostics.len()
            invariant
                i <= self.diagnostics@.len(),
                forall|j: int|
                    0 <= j < i ==> (#[trigger] self.findings()[j]).severity != Severity::Error,
            decreases self.diagnostics@.len() - i,
        {
            if self.diagnostics[i].severity == Severity::Error {
                assert(self.findings()[i as int].severity == Severity::Error);
                return false;
            }
            i = i + 1;
        }
        true
    }

    fn add_if(&mut self, wrong: bool, severity: Severity, message: String)
        ensures
            final(self).findings() == old(self).findings() + note(
                wrong,
                Finding { severity, message: message@ },
            ),
    {
        let ghost before = self.findings();
        if wrong {
            self.diagnostics.push(Diagnostic { severity, message });
            assert(self.findings() =~= before.push(Finding { severity, message: message@ }));
        }
        assert(self.findings() =~= before + note(wrong, Finding { severity, message: message@ }));
    }

    fn error_if(&mut self, wrong: bool, message: String)
        ensures
            final(self).findings() == old(self).findings() + note(wrong, error(message@)),
    {
        self.add_if(wrong, Severity::Error, message);
    }

    fn warn_if(&mut self, odd: bool, message: String)
        ensures
            final(self).findings() == old(self).findings() + note(odd, warning(message@)),
    {
        self.add_if(odd, Severity::Warning, message);
    }
}

/// No finding is an error.
pub open spec fn all_pass(findings: Seq<Finding>) -> bool {
    forall|i: int| 0 <= i < findings.len() ==> (#[trigger] findings[i]).severity != Severity::Error
}

pub open spec fn error(message: Seq<char>) -> Finding {
    Finding { severity: Severity::Error, message }
}

pub open spec fn warning(message: Seq<char>) -> Finding {
    Finding { severity: Severity::Warning, message }
}

/// A finding, where its condition holds.
pub open spec fn note(holds: bool, f: Finding) -> Seq<Finding> {
    if holds {
        seq![f]
    } else {
        Seq::empty()
    }
}

/// The debug form of a string.
pub open spec fn q(s: Seq<char>) -> Seq<char> {
    crate::text::quoted_text(s)
}

/// A number in decimal.
pub open spec fn dec(n: int) -> Seq<char> {
    crate::text::decimal_text(n as nat)
}

/// Nothing but white space.
pub open spec fn blank(s: Seq<char>) -> bool {
    crate::text::trim_text(s).len() == 0
}

fn is_blank(s: &str) -> (r: bool)
    ensures
        r == blank(s@),
{
    let t = trim(s);
    t.as_str().is_empty()
}

// ----------------------------------------------------------- [platform]

/// Lower-case letters, digits and dashes, at least one of them.
pub open spec fn id_ok(id: Seq<char>) -> bool {
    id.len() > 0 && forall|i: int|
        0 <= i < id.len() ==> ('a' <= #[trigger] id[i] <= 'z' || '0' <= id[i] <= '9' || id[i]
            == '-')
}

fn check_id(id: &str) -> (r: bool)
    ensures
        r == id_ok(id@),
{
    let chars = chars_of(id);
    let mut i: usize = 0;
    while i < chars.len()
        invariant
            i <= chars@.len(),
            chars@ == id@,
            forall|j: int|
                0 <= j < i ==> ('a' <= #[trigger] id@[j] <= 'z' || '0' <= id@[j] <= '9' || id@[j]
                    == '-'),
        decreases chars@.len() - i,
    {
        let c = chars[i];
        assert(c == id@[i as int]);
        if !(('a' <= c && c <= 'z') || ('0' <= c && c <= '9') || c == '-') {
            return false;
        }
        i = i + 1;
    }
    chars.len() > 0
}

pub open spec fn is_digit(c: char) -> bool {
    '0' <= c <= '9'
}

pub open spec fn onie_char(c: char) -> bool {
    'a' <= c <= 'z' || 'A' <= c <= 'Z' || is_digit(c) || c == '_' || c == '-'
}

/// An ONIE machine string: letters, digits, `_` and `-`, ending in `-r`
/// and a revision number, with something in front of that.
pub open spec fn onie_ok(s: Seq<char>) -> bool {
    &&& forall|i: int| 0 <= i < s.len() ==> onie_char(#[trigger] s[i])
    &&& exists|k: int| onie_revision(s, k)
}

/// The revision of an ONIE machine string begins with `-r` at `k`.
pub open spec fn onie_revision(s: Seq<char>, k: int) -> bool {
    &&& 0 < k
    &&& k + 2 < s.len()
    &&& s[k] == '-'
    &&& s[k + 1] == 'r'
    &&& forall|j: int| k + 2 <= j < s.len() ==> is_digit(#[trigger] s[j])
}

fn check_onie(text: &str) -> (r: bool)
    ensures
        r == onie_ok(text@),
{
    let s = chars_of(text);
    let mut i: usize = 0;
    while i < s.len()
        invariant
            i <= s@.len(),
            s@ == text@,
            forall|j: int| 0 <= j < i ==> onie_char(#[trigger] text@[j]),
        decreases s@.len() - i,
    {
        let c = s[i];
        assert(c == text@[i as int]);
        if !(('a' <= c && c <= 'z') || ('A' <= c && c <= 'Z') || ('0' <= c && c <= '9') || c == '_'
            || c == '-') {
            assert(!onie_char(text@[i as int]));
            return false;
        }
        i = i + 1;
    }
    let mut d: usize = s.len();
    while d > 0 && '0' <= s[d - 1] && s[d - 1] <= '9'
        invariant
            d <= s@.len(),
            s@ == text@,
            forall|j: int| d <= j < s@.len() ==> is_digit(#[trigger] text@[j]),
        decreases d,
    {
        d = d - 1;
    }
    let ok = d < s.len() && d > 2 && s[d - 2] == '-' && s[d - 1] == 'r';
    proof {
        if ok {
            assert(onie_revision(text@, d - 2));
        }
        assert forall|k: int| onie_revision(text@, k) implies ok by {
            if k + 2 < d {
                assert(is_digit(text@[d - 1]));
            }
            if k + 2 > d {
                assert(is_digit(text@[k + 1]));
            }
        }
    }
    ok
}

/// The architecture and the ONIE machine string must agree.
pub open spec fn arch_findings(p: PlatformSection) -> Seq<Finding> {
    let onie = p.onie_machine@;
    let arch = p.cpu_arch@;
    if arch == "amd64"@ {
        note(
            !crate::text::begins_with(onie, "x86_64-"@),
            error(arch_clash("amd64"@, "x86_64-"@, onie)),
        )
    } else if arch == "armhf"@ {
        note(
            !crate::text::begins_with(onie, "arm-"@),
            error(arch_clash("armhf"@, "arm-"@, onie)),
        )
    } else {
        seq![error("platform.cpu_arch "@ + q(arch) + " is not known (known: amd64, armhf)"@)]
    }
}

pub open spec fn arch_clash(arch: Seq<char>, prefix: Seq<char>, onie: Seq<char>) -> Seq<char> {
    "platform.cpu_arch "@ + q(arch) + " expects an onie_machine starting "@ + q(prefix)
        + ", but it is "@ + q(onie)
}

fn lint_arch(p: &PlatformSection, report: &mut LintReport)
    ensures
        final(report).findings() == old(report).findings() + arch_findings(*p),
{
    let ghost before = report.findings();
    let onie = p.onie_machine.as_str();
    if same_text(p.cpu_arch.as_str(), "amd64") {
        let m = cat6(
            "platform.cpu_arch ",
            quoted("amd64").as_str(),
            " expects an onie_machine starting ",
            quoted("x86_64-").as_str(),
            ", but it is ",
            quoted(onie).as_str(),
        );
        report.error_if(!starts_with(onie, "x86_64-"), m);
    } else if same_text(p.cpu_arch.as_str(), "armhf") {
        let m = cat6(
            "platform.cpu_arch ",
            quoted("armhf").as_str(),
            " expects an onie_machine starting ",
            quoted("arm-").as_str(),
            ", but it is ",
            quoted(onie).as_str(),
        );
        report.error_if(!starts_with(onie, "arm-"), m);
    } else {
        report.error_if(
            true,
            cat3(
                "platform.cpu_arch ",
                quoted(p.cpu_arch.as_str()).as_str(),
                " is not known (known: amd64, armhf)",
            ),
        );
    }
}

/// What lint says of a directory name that differs from the platform's id.
pub open spec fn dir_findings(id: Seq<char>, dir: Seq<char>) -> Seq<Finding> {
    match crate::platform::file_name_text(dir) {
        Some(name) => note(
            name != id && name != "_template"@,
            warning(
                "platform.id "@ + q(id) + " does not match directory name "@ + q(name),
            ),
        ),
        None => Seq::empty(),
    }
}

pub open spec fn empty_field(field: Seq<char>, value: Seq<char>) -> Seq<Finding> {
    note(blank(value), error("platform."@ + field + " must not be empty"@))
}

/// What lint says of the names that identify a platform.
pub open spec fn identity_findings(p: PlatformSection, dir: Seq<char>) -> Seq<Finding> {
    note(
        !id_ok(p.id@),
        error("platform.id "@ + q(p.id@) + " must be non-empty lowercase [a-z0-9-]"@),
    ) + dir_findings(p.id@, dir) + note(
        !onie_ok(p.onie_machine@),
        error(
            "platform.onie_machine "@ + q(p.onie_machine@)
                + " does not look like an ONIE machine string (expected e.g. \"x86_64-cel_e1031-r0\")"@,
        ),
    )
}

/// What lint says of the fields that describe a platform.
pub open spec fn field_findings(p: PlatformSection) -> Seq<Finding> {
    empty_field("vendor"@, p.vendor@) + empty_field("model"@, p.model@) + empty_field(
        "asic_family"@,
        p.asic_family@,
    ) + empty_field("asic"@, p.asic@) + note(
        p.asic_family@ != "broadcom-xgs"@,
        warning(
            "platform.asic_family "@ + q(p.asic_family@)
                + " is not a known family (known: broadcom-xgs)"@,
        ),
    )
}

/// The findings of the `[platform]` section.
pub open spec fn platform_findings(p: PlatformSection, dir: Seq<char>) -> Seq<Finding> {
    identity_findings(p, dir) + field_findings(p) + arch_findings(p)
}

fn lint_empty(report: &mut LintReport, field: &str, value: &str)
    ensures
        final(report).findings() == old(report).findings() + empty_field(field@, value@),
{
    report.error_if(is_blank(value), cat3("platform.", field, " must not be empty"));
}

fn lint_dir(report: &mut LintReport, id: &str, dir: &str)
    ensures
        final(report).findings() == old(report).findings() + dir_findings(id@, dir@),
{
    let ghost before = report.findings();
    match file_name(dir) {
        Some(name) => {
            let m = cat4(
                "platform.id ",
                quoted(id).as_str(),
                " does not match directory name ",
                quoted(name.as_str()).as_str(),
            );
            report.warn_if(
                !same_text(name.as_str(), id) && !same_text(name.as_str(), "_template"),
                m,
            );
        },
        None => {
            assert(report.findings() =~= before + Seq::<Finding>::empty());
        },
    }
}

fn lint_identity(p: &PlatformSection, dir: &str, report: &mut LintReport)
    ensures
        final(report).findings() == old(report).findings() + identity_findings(*p, dir@),
{
    let ghost before = report.findings();
    let id = p.id.as_str();
    report.error_if(
        !check_id(id),
        cat3("platform.id ", quoted(id).as_str(), " must be non-empty lowercase [a-z0-9-]"),
    );
    lint_dir(report, id, dir);
    let onie = p.onie_machine.as_str();
    report.error_if(
        !check_onie(onie),
        cat3(
            "platform.onie_machine ",
            quoted(onie).as_str(),
            " does not look like an ONIE machine string (expected e.g. \"x86_64-cel_e1031-r0\")",
        ),
    );
    assert(report.findings() =~= before + identity_findings(*p, dir@));
}

fn lint_fields(p: &PlatformSection, report: &mut LintReport)
    ensures
        final(report).findings() == old(report).findings() + field_findings(*p),
{
    let ghost before = report.findings();
    lint_empty(report, "vendor", p.vendor.as_str());
    lint_empty(report, "model", p.model.as_str());
    lint_empty(report, "asic_family", p.asic_family.as_str());
    lint_empty(report, "asic", p.asic.as_str());
    report.warn_if(
        !same_text(p.asic_family.as_str(), "broadcom-xgs"),
        cat3(
            "platform.asic_family ",
            quoted(p.asic_family.as_str()).as_str(),
            " is not a known family (known: broadcom-xgs)",
        ),
    );
    assert(report.findings() =~= before + field_findings(*p));
}

fn lint_platform(p: &PlatformSection, dir: &str, report: &mut LintReport)
    ensures
        final(report).findings() == old(report).findings() + platform_findings(*p, dir@),
{
    let ghost before = report.findings();
    lint_identity(p, dir, report);
    lint_fields(p, report);
    lint_arch(p, report);
    assert(report.findings() =~= before + platform_findings(*p, dir@));
}

// ---------------------------------------------------------------- [sai]

/// A field that the `sai` backend requires.
pub open spec fn required_field(field: Seq<char>, value: Option<String>) -> Seq<Finding> {
    match value {
        None => seq![error("sai."@ + field + " is required for backend \"sai\""@)],
        Some(v) => note(blank(v@), error("sai."@ + field + " must not be empty"@)),
    }
}

fn lint_required(report: &mut LintReport, field: &str, value: &Option<String>)
    ensures
        final(report).findings() == old(report).findings() + required_field(field@, *value),
{
    match value {
        None => report.error_if(true, cat3("sai.", field, " is required for backend \"sai\"")),
        Some(v) => report.error_if(is_blank(v.as_str()), cat3("sai.", field, " must not be empty")),
    }
}

/// A path inside the image that a backend requires.
pub open spec fn required_path(
    field: Seq<char>,
    backend: Seq<char>,
    value: Option<String>,
) -> Seq<Finding> {
    match value {
        None => seq![error(
            "sai."@ + field + " is required for backend \""@ + backend + "\""@,
        )],
        Some(v) => note(
            !crate::platform::has_root(v@),
            error(
                "sai."@ + field + " "@ + crate::text::quoted_path_text(v@)
                    + " must be an absolute path inside the image"@,
            ),
        ),
    }
}

fn lint_path(report: &mut LintReport, field: &str, backend: &str, value: &Option<String>)
    ensures
        final(report).findings() == old(report).findings() + required_path(
            field@,
            backend@,
            *value,
        ),
{
    match value {
        None => report.error_if(
            true,
            cat5("sai.", field, " is required for backend \"", backend, "\""),
        ),
        Some(v) => report.error_if(
            !is_rooted(v.as_str()),
            cat5(
                "sai.",
                field,
                " ",
                quoted_path(v.as_str()).as_str(),
                " must be an absolute path inside the image",
            ),
        ),
    }
}

pub open spec fn openbcm_only(field: Seq<char>, set: bool) -> Seq<Finding> {
    note(set, error("sai."@ + field + " applies only to backend \"openbcm\""@))
}

pub open spec fn sai_only(field: Seq<char>, set: bool) -> Seq<Finding> {
    note(
        set,
        error(
            "sai."@ + field
                + " applies only to backend \"sai\" (no vendor SAI exists for an openbcm platform)"@,
        ),
    )
}

fn lint_sai_only(report: &mut LintReport, field: &str, set: bool)
    ensures
        final(report).findings() == old(report).findings() + sai_only(field@, set),
{
    report.error_if(
        set,
        cat3(
            "sai.",
            field,
            " applies only to backend \"sai\" (no vendor SAI exists for an openbcm platform)",
        ),
    );
}

/// What the `sai` backend requires and refuses.
pub open spec fn sai_backend_findings(sai: SaiSection) -> Seq<Finding> {
    required_field("package"@, sai.package) + required_field("version_pin"@, sai.version_pin)
        + required_path("libsai_path"@, "sai"@, sai.libsai_path) + openbcm_only(
        "shim_path"@,
        sai.shim_path is Some,
    ) + openbcm_only("abi_major"@, sai.abi_major is Some)
}

/// The fields of the `sai` backend that the `openbcm` backend refuses.
pub open spec fn vendor_sai_findings(sai: SaiSection) -> Seq<Finding> {
    sai_only("package"@, sai.package is Some) + sai_only("version_pin"@, sai.version_pin is Some)
        + sai_only("api_headers"@, sai.api_headers is Some) + sai_only(
        "libsai_path"@,
        sai.libsai_path is Some,
    )
}

/// What the `openbcm` backend requires and refuses.
pub open spec fn openbcm_findings(sai: SaiSection, attach: AsicAttach) -> Seq<Finding> {
    required_path("shim_path"@, "openbcm"@, sai.shim_path) + note(
        sai.abi_major is None,
        error("sai.abi_major is required for backend \"openbcm\""@),
    ) + vendor_sai_findings(sai) + note(
        attach != AsicAttach::Soc,
        warning(
            "backend \"openbcm\" with platform.asic_attach = \"pcie\": an on-die CMIC has no PCI device, so --auto-mock would mock real hardware"@,
        ),
    )
}

/// Which fields are required, and which are meaningless, depends on the
/// backend.
pub open spec fn backend_findings(sai: SaiSection, attach: AsicAttach) -> Seq<Finding> {
    match sai.backend {
        SaiBackendKind::Sai => sai_backend_findings(sai),
        SaiBackendKind::Openbcm => openbcm_findings(sai, attach),
    }
}

fn lint_sai_backend(sai: &SaiSection, report: &mut LintReport)
    ensures
        final(report).findings() == old(report).findings() + sai_backend_findings(*sai),
{
    let ghost before = report.findings();
    lint_required(report, "package", &sai.package);
    lint_required(report, "version_pin", &sai.version_pin);
    lint_path(report, "libsai_path", "sai", &sai.libsai_path);
    report.error_if(
        sai.shim_path.is_some(),
        cat3("sai.", "shim_path", " applies only to backend \"openbcm\""),
    );
    report.error_if(
        sai.abi_major.is_some(),
        cat3("sai.", "abi_major", " applies only to backend \"openbcm\""),
    );
    assert(report.findings() =~= before + sai_backend_findings(*sai));
}

fn lint_vendor_sai(sai: &SaiSection, report: &mut LintReport)
    ensures
        final(report).findings() == old(report).findings() + vendor_sai_findings(*sai),
{
    let ghost before = report.findings();
    lint_sai_only(report, "package", sai.package.is_some());
    lint_sai_only(report, "version_pin", sai.version_pin.is_some());
    lint_sai_only(report, "api_headers", sai.api_headers.is_some());
    lint_sai_only(report, "libsai_path", sai.libsai_path.is_some());
    assert(report.findings() =~= before + vendor_sai_findings(*sai));
}

fn lint_openbcm(sai: &SaiSection, attach: AsicAttach, report: &mut LintReport)
    ensures
        final(report).findings() == old(report).findings() + openbcm_findings(*sai, attach),
{
    let ghost before = report.findings();
    lint_path(report, "shim_path", "openbcm", &sai.shim_path);
    report.error_if(
        sai.abi_major.is_none(),
        "sai.abi_major is required for backend \"openbcm\"".to_owned(),
    );
    lint_vendor_sai(sai, report);
    report.warn_if(
        attach != AsicAttach::Soc,
        "backend \"openbcm\" with platform.asic_attach = \"pcie\": an on-die CMIC has no PCI device, so --auto-mock would mock real hardware".to_owned(),
    );
    assert(report.findings() =~= before + openbcm_findings(*sai, attach));
}

fn lint_backend(sai: &SaiSection, attach: AsicAttach, report: &mut LintReport)
    ensures
        final(report).findings() == old(report).findings() + backend_findings(*sai, attach),
{
    match sai.backend {
        SaiBackendKind::Sai => lint_sai_backend(sai, report),
        SaiBackendKind::Openbcm => lint_openbcm(sai, attach, report),
    }
}

/// The vendor data files of a platform: the ASIC config, then the extra
/// files.
pub open spec fn vendor_files(sai: SaiSection) -> Seq<Seq<char>> {
    seq![sai.config_bcm@] + sai.extra_files.deep_view()
}

/// What lint says of an absent vendor file.
pub open spec fn absent_warning(file: Seq<char>) -> Finding {
    warning(
        "vendor data file "@ + file
            + " is absent (expected next to platform.toml; see vendor/sai/README.md)"@,
    )
}

/// What lint says of one vendor file.
pub open spec fn file_finding(file: Seq<char>, present: bool) -> Seq<Finding> {
    if crate::platform::has_root(file) {
        seq![error(
            "sai file "@ + crate::text::quoted_path_text(file) + " must be a relative path"@,
        )]
    } else {
        note(!present, absent_warning(file))
    }
}

/// What lint says of the first `n` vendor files.
pub open spec fn file_findings(files: Seq<Seq<char>>, present: Seq<bool>, n: int) -> Seq<Finding>
    decreases n,
{
    if n <= 0 {
        Seq::empty()
    } else {
        file_findings(files, present, n - 1) + file_finding(
            files[n - 1],
            n - 1 < present.len() && present[n - 1],
        )
    }
}

fn lint_file(report: &mut LintReport, file: &str, present: bool)
    ensures
        final(report).findings() == old(report).findings() + file_finding(file@, present),
{
    if is_rooted(file) {
        report.error_if(
            true,
            cat3("sai file ", quoted_path(file).as_str(), " must be a relative path"),
        );
    } else {
        report.warn_if(
            !present,
            cat3(
                "vendor data file ",
                file,
                " is absent (expected next to platform.toml; see vendor/sai/README.md)",
            ),
        );
    }
}

/// The findings of the `[sai]` section. `present` says of each vendor file
/// whether it exists.
pub open spec fn sai_findings(
    sai: SaiSection,
    attach: AsicAttach,
    present: Seq<bool>,
) -> Seq<Finding> {
    backend_findings(sai, attach) + note(
        crate::platform::has_root(sai.config_bcm@),
        error(
            "sai.config_bcm "@ + crate::text::quoted_path_text(sai.config_bcm@)
                + " must be relative to the platform directory"@,
        ),
    ) + file_findings(vendor_files(sai), present, vendor_files(sai).len() as int)
}

fn is_present(present: &Vec<bool>, i: usize) -> (r: bool)
    ensures
        r == (i < present@.len() && present@[i as int]),
{
    i < present.len() && present[i]
}

fn lint_sai(sai: &SaiSection, attach: AsicAttach, present: &Vec<bool>, report: &mut LintReport)
    ensures
        final(report).findings() == old(report).findings() + sai_findings(*sai, attach, present@),
{
    let ghost start = report.findings();
    lint_backend(sai, attach, report);
    report.error_if(
        is_rooted(sai.config_bcm.as_str()),
        cat3(
            "sai.config_bcm ",
            quoted_path(sai.config_bcm.as_str()).as_str(),
            " must be relative to the platform directory",
        ),
    );
    let ghost files = vendor_files(*sai);
    let ghost before = report.findings();
    lint_file(report, sai.config_bcm.as_str(), is_present(present, 0));
    assert(files[0] == sai.config_bcm@);
    assert(file_findings(files, present@, 0) =~= Seq::<Finding>::empty());
    assert(file_findings(files, present@, 1) =~= file_finding(
        files[0],
        0 < present@.len() && present@[0],
    ));
    let mut i: usize = 0;
    while i < sai.extra_files.len()
        invariant
            i <= sai.extra_files@.len(),
            files == vendor_files(*sai),
            report.findings() == before + file_findings(files, present@, i + 1),
        decreases sai.extra_files@.len() - i,
    {
        let ghost mid = report.findings();
        assert(files[i + 1] == sai.extra_files@[i as int]@);
        lint_file(
            report,
            sai.extra_files[i].as_str(),
            i < present.len() && is_present(present, i + 1),
        );
        i = i + 1;
        assert(report.findings() =~= before + file_findings(files, present@, i + 1));
    }
    assert(files.len() == i + 1);
    assert(report.findings() =~= start + sai_findings(*sai, attach, present@));
}

// -------------------------------------------------------------- [ports]

/// One of the first `n` ports has the name.
pub open spec fn port_named(ports: Seq<PortDef>, n: int, name: Seq<char>) -> bool {
    exists|j: int| 0 <= j < n && (#[trigger] ports[j]).name@ == name
}

/// One of the first `n` ports has the front-panel index.
pub open spec fn port_indexed(ports: Seq<PortDef>, n: int, index: u32) -> bool {
    exists|j: int| 0 <= j < n && (#[trigger] ports[j]).index == index
}

fn has_port_named(ports: &Vec<PortDef>, n: usize, name: &str) -> (r: bool)
    requires
        n <= ports@.len(),
    ensures
        r == port_named(ports@, n as int, name@),
{
    let mut i: usize = 0;
    while i < n
        invariant
            i <= n <= ports@.len(),
            forall|j: int| 0 <= j < i ==> (#[trigger] ports@[j]).name@ != name@,
        decreases n - i,
    {
        if same_text(ports[i].name.as_str(), name) {
            assert(ports@[i as int].name@ == name@);
            return true;
        }
        i = i + 1;
    }
    false
}

fn has_port_indexed(ports: &Vec<PortDef>, n: usize, index: u32) -> (r: bool)
    requires
        n <= ports@.len(),
    ensures
        r == port_indexed(ports@, n as int, index),
{
    let mut i: usize = 0;
    while i < n
        invariant
            i <= n <= ports@.len(),
            forall|j: int| 0 <= j < i ==> (#[trigger] ports@[j]).index != index,
        decreases n - i,
    {
        if ports[i].index == index {
            assert(ports@[i as int].index == index);
            return true;
        }
        i = i + 1;
    }
    false
}

/// The claims that one port lays to its first `k` lanes.
pub open spec fn own_claims(port: PortDef, k: int) -> Seq<(u32, Seq<char>)> {
    Seq::new(k as nat, |i: int| (port.lanes@[i], port.name@))
}

/// The claims that the first `n` ports lay to lanes, in order.
pub open spec fn lane_claims(ports: Seq<PortDef>, n: int) -> Seq<(u32, Seq<char>)>
    decreases n,
{
    if n <= 0 {
        Seq::empty()
    } else {
        lane_claims(ports, n - 1) + own_claims(ports[n - 1], ports[n - 1].lanes@.len() as int)
    }
}

/// Who claimed a lane last.
pub open spec fn lane_owner(claims: Seq<(u32, Seq<char>)>, lane: u32) -> Option<Seq<char>>
    decreases claims.len(),
{
    if claims.len() == 0 {
        None
    } else if claims.last().0 == lane {
        Some(claims.last().1)
    } else {
        lane_owner(claims.drop_last(), lane)
    }
}

fn find_lane_owner(claims: &Vec<(u32, String)>, lane: u32) -> (r: Option<String>)
    ensures
        match r {
            Some(s) => lane_owner(claims.deep_view(), lane) == Some(s@),
            None => lane_owner(claims.deep_view(), lane) is None,
        },
{
    let ghost all = claims.deep_view();
    let mut i: usize = claims.len();
    assert(all.take(i as int) =~= all);
    while i > 0
        invariant
            i <= claims@.len(),
            all == claims.deep_view(),
            lane_owner(all, lane) == lane_owner(all.take(i as int), lane),
        decreases i,
    {
        assert(all.take(i as int).drop_last() =~= all.take(i - 1));
        assert(all.take(i as int).last() == claims@[i - 1].deep_view());
        if claims[i - 1].0 == lane {
            return Some(claims[i - 1].1.clone());
        }
        i = i - 1;
    }
    None
}

/// What lint says of a lane that someone claimed already.
pub open spec fn lane_finding(
    owner: Option<Seq<char>>,
    lane: u32,
    name: Seq<char>,
) -> Seq<Finding> {
    match owner {
        Some(other) => seq![error(
            "lane "@ + dec(lane as int) + " assigned to both "@ + q(other) + " and "@ + q(name),
        )],
        None => Seq::empty(),
    }
}

/// What lint says of the first `k` lanes of port `n`.
pub open spec fn lane_findings(ports: Seq<PortDef>, n: int, k: int) -> Seq<Finding>
    decreases k,
{
    if k <= 0 {
        Seq::empty()
    } else {
        lane_findings(ports, n, k - 1) + lane_finding(
            lane_owner(lane_claims(ports, n) + own_claims(ports[n], k - 1), ports[n].lanes@[k - 1]),
            ports[n].lanes@[k - 1],
            ports[n].name@,
        )
    }
}

/// What lint says of port `n`.
pub open spec fn port_finding(ports: Seq<PortDef>, n: int) -> Seq<Finding> {
    let p = ports[n];
    note(port_named(ports, n, p.name@), error("duplicate port name "@ + q(p.name@))) + note(
        port_indexed(ports, n, p.index),
        error(
            "duplicate front-panel index "@ + dec(p.index as int) + " (port "@ + q(p.name@) + ")"@,
        ),
    ) + note(p.speed_mbps == 0, error("port "@ + q(p.name@) + " has speed_mbps = 0"@)) + note(
        p.lanes@.len() == 0,
        error("port "@ + q(p.name@) + " has no lanes"@),
    ) + lane_findings(ports, n, p.lanes@.len() as int)
}

/// What lint says of the first `n` ports.
pub open spec fn port_findings(ports: Seq<PortDef>, n: int) -> Seq<Finding>
    decreases n,
{
    if n <= 0 {
        Seq::empty()
    } else {
        port_findings(ports, n - 1) + port_finding(ports, n - 1)
    }
}

fn lint_lanes(
    ports: &Vec<PortDef>,
    n: usize,
    claims: &mut Vec<(u32, String)>,
    report: &mut LintReport,
)
    requires
        n < ports@.len(),
        old(claims).deep_view() == lane_claims(ports@, n as int),
    ensures
        final(claims).deep_view() == lane_claims(ports@, n + 1),
        final(report).findings() == old(report).findings() + lane_findings(
            ports@,
            n as int,
            ports@[n as int].lanes@.len() as int,
        ),
{
    let ghost before = report.findings();
    let ghost base = claims.deep_view();
    let port = &ports[n];
    let name = port.name.as_str();
    let mut k: usize = 0;
    assert(base + own_claims(*port, 0) =~= base);
    assert(before + lane_findings(ports@, n as int, 0) =~= before);
    while k < port.lanes.len()
        invariant
            n < ports@.len(),
            *port == ports@[n as int],
            name@ == port.name@,
            k <= port.lanes@.len(),
            base == lane_claims(ports@, n as int),
            claims.deep_view() == base + own_claims(*port, k as int),
            report.findings() == before + lane_findings(ports@, n as int, k as int),
        decreases port.lanes@.len() - k,
    {
        let ghost mid = report.findings();
        let ghost held = claims.deep_view();
        let lane: u32 = port.lanes[k];
        match find_lane_owner(claims, lane) {
            Some(other) => {
                report.error_if(
                    true,
                    cat6(
                        "lane ",
                        decimal(lane as u64).as_str(),
                        " assigned to both ",
                        quoted(other.as_str()).as_str(),
                        " and ",
                        quoted(name).as_str(),
                    ),
                );
            },
            None => {},
        }
        claims.push((lane, port.name.clone()));
        assert(claims.deep_view() =~= held.push((lane, port.name@)));
        assert(base + own_claims(*port, k + 1) =~= held.push((lane, port.name@)));
        k = k + 1;
        assert(report.findings() =~= before + lane_findings(ports@, n as int, k as int));
    }
}

fn lint_port(
    ports: &Vec<PortDef>,
    i: usize,
    claims: &mut Vec<(u32, String)>,
    report: &mut LintReport,
)
    requires
        i < ports@.len(),
        old(claims).deep_view() == lane_claims(ports@, i as int),
    ensures
        final(claims).deep_view() == lane_claims(ports@, i + 1),
        final(report).findings() == old(report).findings() + port_finding(ports@, i as int),
{
    let ghost before = report.findings();
    let port = &ports[i];
    let name = quoted(port.name.as_str());
    report.error_if(
        has_port_named(ports, i, port.name.as_str()),
        cat2("duplicate port name ", name.as_str()),
    );
    report.error_if(
        has_port_indexed(ports, i, port.index),
        cat5(
            "duplicate front-panel index ",
            decimal(port.index as u64).as_str(),
            " (port ",
            name.as_str(),
            ")",
        ),
    );
    report.error_if(port.speed_mbps == 0, cat3("port ", name.as_str(), " has speed_mbps = 0"));
    report.error_if(port.lanes.len() == 0, cat3("port ", name.as_str(), " has no lanes"));
    lint_lanes(ports, i, claims, report);
    assert(report.findings() =~= before + port_finding(ports@, i as int));
}

fn lint_ports(ports: &Vec<PortDef>, report: &mut LintReport)
    ensures
        final(report).findings() == old(report).findings() + port_findings(
            ports@,
            ports@.len() as int,
        ),
{
    let ghost before = report.findings();
    let mut claims: Vec<(u32, String)> = Vec::new();
    assert(claims.deep_view() =~= lane_claims(ports@, 0));
    assert(before + port_findings(ports@, 0) =~= before);
    let mut i: usize = 0;
    while i < ports.len()
        invariant
            i <= ports@.len(),
            claims.deep_view() == lane_claims(ports@, i as int),
            report.findings() == before + port_findings(ports@, i as int),
        decreases ports@.len() - i,
    {
        lint_port(ports, i, &mut claims, report);
        i = i + 1;
        assert(report.findings() =~= before + port_findings(ports@, i as int));
    }
}

/// How many ports lint expects a group to expand to.
pub open spec fn expected_ports(g: PortGroup) -> int {
    g.lanes@.len() as int / (if g.lanes_per_port == 0 {
        1
    } else {
        g.lanes_per_port as int
    })
}

/// What lint says of a group's SDK names.
pub open spec fn group_finding(g: PortGroup) -> Seq<Finding> {
    note(
        g.sdk_names@.len() != 0 && g.sdk_names@.len() != expected_ports(g),
        error(
            "port group "@ + q(g.prefix@) + ": sdk_names has "@ + dec(g.sdk_names@.len() as int)
                + " entries but the group expands to "@ + (dec(expected_ports(g))
                + " ports (one SDK name per port, in expansion order)"@),
        ),
    )
}

pub open spec fn group_findings(groups: Seq<PortGroup>, n: int) -> Seq<Finding>
    decreases n,
{
    if n <= 0 {
        Seq::empty()
    } else {
        group_findings(groups, n - 1) + group_finding(groups[n - 1])
    }
}

fn lint_groups(groups: &Vec<PortGroup>, report: &mut LintReport)
    ensures
        final(report).findings() == old(report).findings() + group_findings(
            groups@,
            groups@.len() as int,
        ),
{
    let ghost before = report.findings();
    let mut i: usize = 0;
    assert(before + group_findings(groups@, 0) =~= before);
    while i < groups.len()
        invariant
            i <= groups@.len(),
            report.findings() == before + group_findings(groups@, i as int),
        decreases groups@.len() - i,
    {
        let group = &groups[i];
        let width: usize = if group.lanes_per_port == 0 {
            1
        } else {
            group.lanes_per_port as usize
        };
        let expected: usize = group.lanes.len() / width;
        let count: usize = group.sdk_names.len();
        let tail = cat2(
            decimal(expected as u64).as_str(),
            " ports (one SDK name per port, in expansion order)",
        );
        report.error_if(
            count != 0 && count != expected,
            cat6(
                "port group ",
                quoted(group.prefix.as_str()).as_str(),
                ": sdk_names has ",
                decimal(count as u64).as_str(),
                " entries but the group expands to ",
                tail.as_str(),
            ),
        );
        i = i + 1;
        assert(report.findings() =~= before + group_findings(groups@, i as int));
    }
}

/// The SDK names that the first `n` ports claim, in order.
pub open spec fn sdk_claims(ports: Seq<PortDef>, n: int) -> Seq<(Seq<char>, Seq<char>)>
    decreases n,
{
    if n <= 0 {
        Seq::empty()
    } else {
        match ports[n - 1].sdk_name {
            Some(sdk) => sdk_claims(ports, n - 1).push((sdk@, ports[n - 1].name@)),
            None => sdk_claims(ports, n - 1),
        }
    }
}

/// Who claimed an SDK name last.
pub open spec fn sdk_owner(claims: Seq<(Seq<char>, Seq<char>)>, sdk: Seq<char>) -> Option<Seq<char>>
    decreases claims.len(),
{
    if claims.len() == 0 {
        None
    } else if claims.last().0 == sdk {
        Some(claims.last().1)
    } else {
        sdk_owner(claims.drop_last(), sdk)
    }
}

fn find_sdk_owner(claims: &Vec<(String, String)>, sdk: &str) -> (r: Option<String>)
    ensures
        match r {
            Some(s) => sdk_owner(claims.deep_view(), sdk@) == Some(s@),
            None => sdk_owner(claims.deep_view(), sdk@) is None,
        },
{
    let ghost all = claims.deep_view();
    let mut i: usize = claims.len();
    assert(all.take(i as int) =~= all);
    while i > 0
        invariant
            i <= claims@.len(),
            all == claims.deep_view(),
            sdk_owner(all, sdk@) == sdk_owner(all.take(i as int), sdk@),
        decreases i,
    {
        assert(all.take(i as int).drop_last() =~= all.take(i - 1));
        assert(all.take(i as int).last() == claims@[i - 1].deep_view());
        if same_text(claims[i - 1].0.as_str(), sdk) {
            return Some(claims[i - 1].1.clone());
        }
        i = i - 1;
    }
    None
}

/// What lint says of the SDK name of port `n`.
pub open spec fn sdk_finding(ports: Seq<PortDef>, n: int) -> Seq<Finding> {
    match ports[n].sdk_name {
        None => Seq::empty(),
        Some(sdk) => note(
            blank(sdk@),
            error("port "@ + q(ports[n].name@) + " has an empty sdk_name"@),
        ) + match sdk_owner(sdk_claims(ports, n), sdk@) {
            Some(other) => seq![error(
                "sdk_name "@ + q(sdk@) + " assigned to both "@ + q(other) + " and "@ + q(
                    ports[n].name@,
                ),
            )],
            None => Seq::empty(),
        },
    }
}

pub open spec fn sdk_findings(ports: Seq<PortDef>, n: int) -> Seq<Finding>
    decreases n,
{
    if n <= 0 {
        Seq::empty()
    } else {
        sdk_findings(ports, n - 1) + sdk_finding(ports, n - 1)
    }
}

/// What lint says of SDK names altogether.
pub open spec fn all_sdk_findings(ports: Seq<PortDef>, backend: SaiBackendKind) -> Seq<Finding> {
    sdk_findings(ports, ports.len() as int) + note(
        backend == SaiBackendKind::Openbcm && sdk_claims(ports, ports.len() as int).len() == 0,
        warning(
            "backend \"openbcm\" but no sdk_names are declared: syncd cannot check the port map against what the SDK reports"@,
        ),
    )
}

fn lint_sdk_name(
    ports: &Vec<PortDef>,
    i: usize,
    claims: &mut Vec<(String, String)>,
    report: &mut LintReport,
)
    requires
        i < ports@.len(),
        old(claims).deep_view() == sdk_claims(ports@, i as int),
    ensures
        final(claims).deep_view() == sdk_claims(ports@, i + 1),
        final(report).findings() == old(report).findings() + sdk_finding(ports@, i as int),
{
    let ghost before = report.findings();
    let port = &ports[i];
    match &port.sdk_name {
        None => {
            assert(before =~= before + sdk_finding(ports@, i as int));
        },
        Some(sdk) => {
            let ghost held = claims.deep_view();
            report.error_if(
                is_blank(sdk.as_str()),
                cat3("port ", quoted(port.name.as_str()).as_str(), " has an empty sdk_name"),
            );
            match find_sdk_owner(claims, sdk.as_str()) {
                Some(other) => {
                    report.error_if(
                        true,
                        cat6(
                            "sdk_name ",
                            quoted(sdk.as_str()).as_str(),
                            " assigned to both ",
                            quoted(other.as_str()).as_str(),
                            " and ",
                            quoted(port.name.as_str()).as_str(),
                        ),
                    );
                },
                None => {},
            }
            claims.push((sdk.clone(), port.name.clone()));
            assert(claims.deep_view() =~= held.push((sdk@, port.name@)));
            assert(report.findings() =~= before + sdk_finding(ports@, i as int));
        },
    }
}

fn lint_sdk_names(ports: &Vec<PortDef>, backend: SaiBackendKind, report: &mut LintReport)
    ensures
        final(report).findings() == old(report).findings() + all_sdk_findings(ports@, backend),
{
    let ghost before = report.findings();
    let mut claims: Vec<(String, String)> = Vec::new();
    assert(claims.deep_view() =~= sdk_claims(ports@, 0));
    assert(before + sdk_findings(ports@, 0) =~= before);
    let mut i: usize = 0;
    while i < ports.len()
        invariant
            i <= ports@.len(),
            claims.deep_view() == sdk_claims(ports@, i as int),
            report.findings() == before + sdk_findings(ports@, i as int),
        decreases ports@.len() - i,
    {
        lint_sdk_name(ports, i, &mut claims, report);
        i = i + 1;
        assert(report.findings() =~= before + sdk_findings(ports@, i as int));
    }
    assert(claims.deep_view().len() == claims@.len());
    report.warn_if(
        backend == SaiBackendKind::Openbcm && claims.len() == 0,
        "backend \"openbcm\" but no sdk_names are declared: syncd cannot check the port map against what the SDK reports".to_owned(),
    );
    assert(report.findings() =~= before + all_sdk_findings(ports@, backend));
}

// ----------------------------------------------------------- [hardware]

/// A name put into a sorted list of names without doubles.
pub open spec fn insert_name(s: Seq<Seq<char>>, name: Seq<char>) -> Seq<Seq<char>>
    decreases s.len(),
{
    if s.len() == 0 {
        seq![name]
    } else if s.last() == name {
        s
    } else if crate::text::text_before(s.last(), name) {
        s.push(name)
    } else {
        insert_name(s.drop_last(), name).push(s.last())
    }
}

fn add_name(names: &mut Vec<String>, name: &str)
    ensures
        final(names).deep_view() == insert_name(old(names).deep_view(), name@),
    decreases old(names)@.len(),
{
    let ghost before = names.deep_view();
    let len: usize = names.len();
    if len == 0 {
        names.push(name.to_owned());
        assert(names.deep_view() =~= seq![name@]);
        return ;
    }
    assert(before.last() == names@.last()@);
    if same_text(names[len - 1].as_str(), name) {
        return ;
    }
    if is_text_before(names[len - 1].as_str(), name) {
        names.push(name.to_owned());
        assert(names.deep_view() =~= before.push(name@));
        return ;
    }
    match names.pop() {
        Some(last) => {
            assert(names.deep_view() =~= before.drop_last());
            add_name(names, name);
            let ghost mid = names.deep_view();
            names.push(last);
            assert(names.deep_view() =~= mid.push(last@));
        },
        None => {},
    }
}

/// The root adapters declared by the shorthand and the first `n` entries,
/// in order and each once.
pub open spec fn declared_roots(i2c: I2cSection, n: int) -> Seq<Seq<char>>
    decreases n,
{
    if n <= 0 {
        if i2c.root_adapter is Some {
            seq!["root"@]
        } else {
            Seq::empty()
        }
    } else {
        insert_name(declared_roots(i2c, n - 1), i2c.roots@[n - 1].name@)
    }
}

/// What lint says of root `n`.
pub open spec fn root_finding(i2c: I2cSection, n: int) -> Seq<Finding> {
    let root = i2c.roots@[n];
    note(blank(root.name@), error("i2c root has an empty name"@)) + note(
        blank(root.adapter@),
        error("i2c root "@ + q(root.name@) + " has an empty adapter name"@),
    ) + note(
        declared_roots(i2c, n).contains(root.name@),
        error(
            "duplicate i2c root name "@ + q(root.name@) + (if root.name@ == "root"@
                && i2c.root_adapter is Some {
                " (root_adapter already declares a root by that name)"@
            } else {
                ""@
            }),
        ),
    )
}

pub open spec fn root_findings(i2c: I2cSection, n: int) -> Seq<Finding>
    decreases n,
{
    if n <= 0 {
        Seq::empty()
    } else {
        root_findings(i2c, n - 1) + root_finding(i2c, n - 1)
    }
}

fn lint_roots(i2c: &I2cSection, report: &mut LintReport) -> (names: Vec<String>)
    ensures
        final(report).findings() == old(report).findings() + root_findings(
            *i2c,
            i2c.roots@.len() as int,
        ),
        names.deep_view() == declared_roots(*i2c, i2c.roots@.len() as int),
{
    let ghost before = report.findings();
    let mut names: Vec<String> = Vec::new();
    if i2c.root_adapter.is_some() {
        names.push(DEFAULT_ROOT_NAME.to_owned());
    }
    assert(names.deep_view() =~= declared_roots(*i2c, 0));
    assert(before + root_findings(*i2c, 0) =~= before);
    let mut i: usize = 0;
    while i < i2c.roots.len()
        invariant
            i <= i2c.roots@.len(),
            names.deep_view() == declared_roots(*i2c, i as int),
            report.findings() == before + root_findings(*i2c, i as int),
        decreases i2c.roots@.len() - i,
    {
        let root = &i2c.roots[i];
        let name = root.name.as_str();
        report.error_if(is_blank(name), "i2c root has an empty name".to_owned());
        report.error_if(
            is_blank(root.adapter.as_str()),
            cat3("i2c root ", quoted(name).as_str(), " has an empty adapter name"),
        );
        let clash = if same_text(name, DEFAULT_ROOT_NAME) && i2c.root_adapter.is_some() {
            " (root_adapter already declares a root by that name)"
        } else {
            ""
        };
        report.error_if(
            is_among(&names, name),
            cat3("duplicate i2c root name ", quoted(name).as_str(), clash),
        );
        add_name(&mut names, name);
        i = i + 1;
        assert(report.findings() =~= before + root_findings(*i2c, i as int));
    }
    names
}

/// What lint says of a bus reference: every name must be a declared root.
pub open spec fn bus_finding(bus: BusRef, what: Seq<char>, roots: Seq<Seq<char>>) -> Seq<Finding> {
    match bus {
        BusRef::Named(name) => note(
            !roots.contains(name@),
            error(
                what + " references i2c root "@ + q(name@)
                    + ", which is not declared (declared: "@ + (if roots.len() == 0 {
                    "none"@
                } else {
                    crate::text::join_text(roots, ", "@)
                }) + ")"@,
            ),
        ),
        BusRef::Number(n) => Seq::empty(),
    }
}

fn lint_bus(bus: &BusRef, what: &str, roots: &Vec<String>, report: &mut LintReport)
    ensures
        final(report).findings() == old(report).findings() + bus_finding(
            *bus,
            what@,
            roots.deep_view(),
        ),
{
    let ghost before = report.findings();
    match bus {
        BusRef::Named(name) => {
            let list = if roots.len() == 0 {
                "none".to_owned()
            } else {
                join(roots, ", ")
            };
            assert(roots.deep_view().len() == roots@.len());
            report.error_if(
                !is_among(roots, name.as_str()),
                cat6(
                    what,
                    " references i2c root ",
                    quoted(name.as_str()).as_str(),
                    ", which is not declared (declared: ",
                    list.as_str(),
                    ")",
                ),
            );
        },
        BusRef::Number(n) => {
            assert(report.findings() =~= before + Seq::<Finding>::empty());
        },
    }
}

/// The child buses of one mux.
pub open spec fn mux_buses(mux: I2cMux, k: int) -> Seq<u32> {
    Seq::new(k as nat, |c: int| (mux.child_bus_base + c) as u32)
}

/// The child buses of the first `n` muxes, in order.
pub open spec fn claimed_buses(muxes: Seq<I2cMux>, n: int) -> Seq<u32>
    decreases n,
{
    if n <= 0 {
        Seq::empty()
    } else {
        claimed_buses(muxes, n - 1) + mux_buses(muxes[n - 1], muxes[n - 1].channels as int)
    }
}

/// Every child bus number fits in 32 bits.
pub open spec fn buses_fit(muxes: Seq<I2cMux>) -> bool {
    forall|i: int|
        0 <= i < muxes.len() ==> (#[trigger] muxes[i]).child_bus_base + muxes[i].channels
            <= 0x1_0000_0000
}

/// Is every bus number that a mux declares a number?
pub fn muxes_fit(muxes: &Vec<I2cMux>) -> (r: bool)
    ensures
        r == buses_fit(muxes@),
{
    let mut i: usize = 0;
    while i < muxes.len()
        invariant
            i <= muxes@.len(),
            buses_fit(muxes@.take(i as int)),
        decreases muxes@.len() - i,
    {
        let mux = &muxes[i];
        if mux.child_bus_base as u64 + mux.channels as u64 > 0x1_0000_0000 {
            assert(!buses_fit(muxes@)) by {
                assert(muxes@[i as int].child_bus_base + muxes@[i as int].channels
                    > 0x1_0000_0000);
            }
            return false;
        }
        assert(muxes@.take(i + 1) =~= muxes@.take(i as int).push(muxes@[i as int]));
        i = i + 1;
    }
    assert(muxes@.take(i as int) =~= muxes@);
    true
}

/// What lint says of the first `k` channels of mux `n`.
pub open spec fn channel_findings(muxes: Seq<I2cMux>, n: int, k: int) -> Seq<Finding>
    decreases k,
{
    if k <= 0 {
        Seq::empty()
    } else {
        let bus = (muxes[n].child_bus_base + (k - 1)) as u32;
        channel_findings(muxes, n, k - 1) + note(
            (claimed_buses(muxes, n) + mux_buses(muxes[n], k - 1)).contains(bus),
            error(
                "i2c mux "@ + q(muxes[n].name@) + ": child bus "@ + dec(bus as int)
                    + " claimed by more than one mux channel"@,
            ),
        )
    }
}

pub open spec fn mux_findings(muxes: Seq<I2cMux>, roots: Seq<Seq<char>>, n: int) -> Seq<Finding>
    decreases n,
{
    if n <= 0 {
        Seq::empty()
    } else {
        mux_findings(muxes, roots, n - 1) + channel_findings(
            muxes,
            n - 1,
            muxes[n - 1].channels as int,
        ) + bus_finding(
            muxes[n - 1].parent_bus,
            "i2c mux "@ + q(muxes[n - 1].name@) + " parent_bus"@,
            roots,
        )
    }
}

fn has_bus(buses: &Vec<u32>, bus: u32) -> (r: bool)
    ensures
        r == buses@.contains(bus),
{
    let mut i: usize = 0;
    while i < buses.len()
        invariant
            i <= buses@.len(),
            forall|j: int| 0 <= j < i ==> buses@[j] != bus,
        decreases buses@.len() - i,
    {
        if buses[i] == bus {
            return true;
        }
        i = i + 1;
    }
    false
}

fn lint_channels(muxes: &Vec<I2cMux>, n: usize, buses: &mut Vec<u32>, report: &mut LintReport)
    requires
        n < muxes@.len(),
        buses_fit(muxes@),
        old(buses)@ == claimed_buses(muxes@, n as int),
    ensures
        final(buses)@ == claimed_buses(muxes@, n + 1),
        final(report).findings() == old(report).findings() + channel_findings(
            muxes@,
            n as int,
            muxes@[n as int].channels as int,
        ),
{
    let ghost before = report.findings();
    let ghost base = buses@;
    let mux = &muxes[n];
    let mut c: u32 = 0;
    assert(base + mux_buses(*mux, 0) =~= base);
    assert(before + channel_findings(muxes@, n as int, 0) =~= before);
    while c < mux.channels
        invariant
            n < muxes@.len(),
            *mux == muxes@[n as int],
            mux.child_bus_base + mux.channels <= 0x1_0000_0000,
            c <= mux.channels,
            base == claimed_buses(muxes@, n as int),
            buses@ == base + mux_buses(*mux, c as int),
            report.findings() == before + channel_findings(muxes@, n as int, c as int),
        decreases mux.channels - c,
    {
        let bus: u32 = mux.child_bus_base + c;
        report.error_if(
            has_bus(buses, bus),
            cat5(
                "i2c mux ",
                quoted(mux.name.as_str()).as_str(),
                ": child bus ",
                decimal(bus as u64).as_str(),
                " claimed by more than one mux channel",
            ),
        );
        buses.push(bus);
        assert(base + mux_buses(*mux, c + 1) =~= (base + mux_buses(*mux, c as int)).push(bus));
        c = c + 1;
        assert(report.findings() =~= before + channel_findings(muxes@, n as int, c as int));
    }
}

fn lint_muxes(muxes: &Vec<I2cMux>, roots: &Vec<String>, report: &mut LintReport) -> (buses: Vec<u32>)
    requires
        buses_fit(muxes@),
    ensures
        buses@ == claimed_buses(muxes@, muxes@.len() as int),
        final(report).findings() == old(report).findings() + mux_findings(
            muxes@,
            roots.deep_view(),
            muxes@.len() as int,
        ),
{
    let ghost before = report.findings();
    let ghost known = roots.deep_view();
    let mut buses: Vec<u32> = Vec::new();
    assert(before + mux_findings(muxes@, known, 0) =~= before);
    let mut i: usize = 0;
    while i < muxes.len()
        invariant
            i <= muxes@.len(),
            buses_fit(muxes@),
            known == roots.deep_view(),
            buses@ == claimed_buses(muxes@, i as int),
            report.findings() == before + mux_findings(muxes@, known, i as int),
        decreases muxes@.len() - i,
    {
        lint_channels(muxes, i, &mut buses, report);
        let what = cat3("i2c mux ", quoted(muxes[i].name.as_str()).as_str(), " parent_bus");
        lint_bus(&muxes[i].parent_bus, what.as_str(), roots, report);
        i = i + 1;
        assert(report.findings() =~= before + mux_findings(muxes@, known, i as int));
    }
    buses
}

pub open spec fn write_findings(
    writes: Seq<I2cWrite>,
    roots: Seq<Seq<char>>,
    n: int,
) -> Seq<Finding>
    decreases n,
{
    if n <= 0 {
        Seq::empty()
    } else {
        write_findings(writes, roots, n - 1) + bus_finding(
            writes[n - 1].bus,
            "i2c pre_write "@ + q(writes[n - 1].purpose@),
            roots,
        )
    }
}

fn lint_writes(writes: &Vec<I2cWrite>, roots: &Vec<String>, report: &mut LintReport)
    ensures
        final(report).findings() == old(report).findings() + write_findings(
            writes@,
            roots.deep_view(),
            writes@.len() as int,
        ),
{
    let ghost before = report.findings();
    let ghost known = roots.deep_view();
    assert(before + write_findings(writes@, known, 0) =~= before);
    let mut i: usize = 0;
    while i < writes.len()
        invariant
            i <= writes@.len(),
            known == roots.deep_view(),
            report.findings() == before + write_findings(writes@, known, i as int),
        decreases writes@.len() - i,
    {
        let what = cat2("i2c pre_write ", quoted(writes[i].purpose.as_str()).as_str());
        lint_bus(&writes[i].bus, what.as_str(), roots, report);
        i = i + 1;
        assert(report.findings() =~= before + write_findings(writes@, known, i as int));
    }
}

/// What lint says of a numbered bus that no mux produces.
pub open spec fn parent_findings(muxes: Seq<I2cMux>, buses: Seq<u32>, n: int) -> Seq<Finding>
    decreases n,
{
    if n <= 0 {
        Seq::empty()
    } else {
        parent_findings(muxes, buses, n - 1) + match muxes[n - 1].parent_bus {
            BusRef::Number(parent) => note(
                !buses.contains(parent),
                warning(
                    "i2c mux "@ + q(muxes[n - 1].name@) + ": parent bus "@ + dec(parent as int)
                        + " is not produced by any declared mux (assuming it exists on the platform)"@,
                ),
            ),
            BusRef::Named(name) => Seq::empty(),
        }
    }
}

fn lint_parents(muxes: &Vec<I2cMux>, buses: &Vec<u32>, report: &mut LintReport)
    ensures
        final(report).findings() == old(report).findings() + parent_findings(
            muxes@,
            buses@,
            muxes@.len() as int,
        ),
{
    let ghost before = report.findings();
    assert(before + parent_findings(muxes@, buses@, 0) =~= before);
    let mut i: usize = 0;
    while i < muxes.len()
        invariant
            i <= muxes@.len(),
            report.findings() == before + parent_findings(muxes@, buses@, i as int),
        decreases muxes@.len() - i,
    {
        match &muxes[i].parent_bus {
            BusRef::Number(parent) => {
                report.warn_if(
                    !has_bus(buses, *parent),
                    cat5(
                        "i2c mux ",
                        quoted(muxes[i].name.as_str()).as_str(),
                        ": parent bus ",
                        decimal(*parent as u64).as_str(),
                        " is not produced by any declared mux (assuming it exists on the platform)",
                    ),
                );
            },
            BusRef::Named(name) => {},
        }
        i = i + 1;
        assert(report.findings() =~= before + parent_findings(muxes@, buses@, i as int));
    }
}

/// What lint says of device `d`.
pub open spec fn device_finding(
    d: I2cDevice,
    roots: Seq<Seq<char>>,
    buses: Seq<u32>,
) -> Seq<Finding> {
    let label = "i2c device "@ + d.purpose@ + " ("@ + d.driver@ + ")"@;
    bus_finding(d.bus, label, roots) + match d.bus {
        BusRef::Number(bus) => note(
            !buses.contains(bus),
            warning(
                label + " on bus "@ + dec(bus as int) + " which no declared mux produces"@,
            ),
        ),
        BusRef::Named(name) => Seq::empty(),
    }
}

pub open spec fn device_findings(
    devices: Seq<I2cDevice>,
    roots: Seq<Seq<char>>,
    buses: Seq<u32>,
    n: int,
) -> Seq<Finding>
    decreases n,
{
    if n <= 0 {
        Seq::empty()
    } else {
        device_findings(devices, roots, buses, n - 1) + device_finding(
            devices[n - 1],
            roots,
            buses,
        )
    }
}

fn lint_devices(
    devices: &Vec<I2cDevice>,
    roots: &Vec<String>,
    buses: &Vec<u32>,
    report: &mut LintReport,
)
    ensures
        final(report).findings() == old(report).findings() + device_findings(
            devices@,
            roots.deep_view(),
            buses@,
            devices@.len() as int,
        ),
{
    let ghost before = report.findings();
    let ghost known = roots.deep_view();
    assert(before + device_findings(devices@, known, buses@, 0) =~= before);
    let mut i: usize = 0;
    while i < devices.len()
        invariant
            i <= devices@.len(),
            known == roots.deep_view(),
            report.findings() == before + device_findings(devices@, known, buses@, i as int),
        decreases devices@.len() - i,
    {
        let d = &devices[i];
        let ghost mid = report.findings();
        let label = cat5("i2c device ", d.purpose.as_str(), " (", d.driver.as_str(), ")");
        lint_bus(&d.bus, label.as_str(), roots, report);
        match &d.bus {
            BusRef::Number(bus) => {
                report.warn_if(
                    !has_bus(buses, *bus),
                    cat4(
                        label.as_str(),
                        " on bus ",
                        decimal(*bus as u64).as_str(),
                        " which no declared mux produces",
                    ),
                );
            },
            BusRef::Named(name) => {},
        }
        assert(report.findings() =~= mid + device_finding(*d, known, buses@));
        i = i + 1;
        assert(report.findings() =~= before + device_findings(devices@, known, buses@, i as int));
    }
}

pub open spec fn psu_findings(psus: Seq<Psu>, roots: Seq<Seq<char>>, n: int) -> Seq<Finding>
    decreases n,
{
    if n <= 0 {
        Seq::empty()
    } else {
        psu_findings(psus, roots, n - 1) + bus_finding(
            psus[n - 1].bus,
            "psu "@ + q(psus[n - 1].name@),
            roots,
        )
    }
}

fn lint_psus(psus: &Vec<Psu>, roots: &Vec<String>, report: &mut LintReport)
    ensures
        final(report).findings() == old(report).findings() + psu_findings(
            psus@,
            roots.deep_view(),
            psus@.len() as int,
        ),
{
    let ghost before = report.findings();
    let ghost known = roots.deep_view();
    assert(before + psu_findings(psus@, known, 0) =~= before);
    let mut i: usize = 0;
    while i < psus.len()
        invariant
            i <= psus@.len(),
            known == roots.deep_view(),
            report.findings() == before + psu_findings(psus@, known, i as int),
        decreases psus@.len() - i,
    {
        let what = cat2("psu ", quoted(psus[i].name.as_str()).as_str());
        lint_bus(&psus[i].bus, what.as_str(), roots, report);
        i = i + 1;
        assert(report.findings() =~= before + psu_findings(psus@, known, i as int));
    }
}

pub open spec fn fan_findings(fans: Seq<FanDef>, n: int) -> Seq<Finding>
    decreases n,
{
    if n <= 0 {
        Seq::empty()
    } else {
        fan_findings(fans, n - 1) + note(
            fans[n - 1].pwm_max == 0,
            error(
                "fan "@ + q(fans[n - 1].name@)
                    + ": pwm_max must be >= 1 (255 for standard hwmon pwmN, 100 for a percentage attribute)"@,
            ),
        )
    }
}

fn lint_fans(fans: &Vec<FanDef>, report: &mut LintReport)
    ensures
        final(report).findings() == old(report).findings() + fan_findings(fans@, fans@.len() as int),
{
    let ghost before = report.findings();
    assert(before + fan_findings(fans@, 0) =~= before);
    let mut i: usize = 0;
    while i < fans.len()
        invariant
            i <= fans@.len(),
            report.findings() == before + fan_findings(fans@, i as int),
        decreases fans@.len() - i,
    {
        report.error_if(
            fans[i].pwm_max == 0,
            cat3(
                "fan ",
                quoted(fans[i].name.as_str()).as_str(),
                ": pwm_max must be >= 1 (255 for standard hwmon pwmN, 100 for a percentage attribute)",
            ),
        );
        i = i + 1;
        assert(report.findings() =~= before + fan_findings(fans@, i as int));
    }
}

pub open spec fn sensor_findings(sensors: Seq<ThermalSensor>, n: int) -> Seq<Finding>
    decreases n,
{
    if n <= 0 {
        Seq::empty()
    } else {
        let s = sensors[n - 1];
        sensor_findings(sensors, n - 1) + note(
            s.warn_c.spec_at_least(s.crit_c),
            error(
                "thermal sensor "@ + q(s.name@) + ": warn_c "@ + s.warn_c.shown@
                    + " must be below crit_c "@ + s.crit_c.shown@,
            ),
        )
    }
}

fn lint_sensors(sensors: &Vec<ThermalSensor>, report: &mut LintReport)
    ensures
        final(report).findings() == old(report).findings() + sensor_findings(
            sensors@,
            sensors@.len() as int,
        ),
{
    let ghost before = report.findings();
    assert(before + sensor_findings(sensors@, 0) =~= before);
    let mut i: usize = 0;
    while i < sensors.len()
        invariant
            i <= sensors@.len(),
            report.findings() == before + sensor_findings(sensors@, i as int),
        decreases sensors@.len() - i,
    {
        let s = &sensors[i];
        report.error_if(
            s.warn_c.at_least(&s.crit_c),
            cat6(
                "thermal sensor ",
                quoted(s.name.as_str()).as_str(),
                ": warn_c ",
                s.warn_c.shown.as_str(),
                " must be below crit_c ",
                s.crit_c.shown.as_str(),
            ),
        );
        i = i + 1;
        assert(report.findings() =~= before + sensor_findings(sensors@, i as int));
    }
}

/// A sensor of the name is declared.
pub open spec fn sensor_named(sensors: Seq<ThermalSensor>, name: Seq<char>) -> bool {
    exists|i: int| 0 <= i < sensors.len() && (#[trigger] sensors[i]).name@ == name
}

fn has_sensor(sensors: &Vec<ThermalSensor>, name: &str) -> (r: bool)
    ensures
        r == sensor_named(sensors@, name@),
{
    let mut i: usize = 0;
    while i < sensors.len()
        invariant
            i <= sensors@.len(),
            forall|j: int| 0 <= j < i ==> (#[trigger] sensors@[j]).name@ != name@,
        decreases sensors@.len() - i,
    {
        if same_text(sensors[i].name.as_str(), name) {
            assert(sensors@[i as int].name@ == name@);
            return true;
        }
        i = i + 1;
    }
    false
}

/// What lint says of the first `n` steps of a fan curve: temperatures
/// must rise.
pub open spec fn rise_findings(fc: FanControl, n: int) -> Seq<Finding>
    decreases n,
{
    if n <= 0 {
        Seq::empty()
    } else {
        let a = fc.curve@[n - 1].temp_c;
        let b = fc.curve@[n].temp_c;
        rise_findings(fc, n - 1) + note(
            a.spec_at_least(b),
            error(
                "fan_control.curve temperatures must be strictly increasing ("@ + a.shown@
                    + " then "@ + b.shown@ + ")"@,
            ),
        )
    }
}

pub open spec fn duty_findings(fc: FanControl, n: int) -> Seq<Finding>
    decreases n,
{
    if n <= 0 {
        Seq::empty()
    } else {
        let pwm = fc.curve@[n - 1].pwm_percent;
        duty_findings(fc, n - 1) + note(
            pwm > 100,
            error("fan_control.curve pwm_percent "@ + dec(pwm as int) + " exceeds 100"@),
        )
    }
}

/// What lint says of the fan curve.
pub open spec fn control_findings(thermal: ThermalSection) -> Seq<Finding> {
    match thermal.fan_control {
        None => Seq::empty(),
        Some(fc) => note(
            !sensor_named(thermal.sensors@, fc.sensor@),
            error(
                "fan_control.sensor "@ + q(fc.sensor@) + " is not a declared thermal sensor"@,
            ),
        ) + note(
            fc.curve@.len() == 0,
            error("fan_control.curve must have at least one point"@),
        ) + rise_findings(fc, fc.curve@.len() - 1) + duty_findings(fc, fc.curve@.len() as int)
            + note(
            fc.interval_secs == 0,
            error("fan_control.interval_secs must be >= 1"@),
        ) + note(
            thermal.fans@.len() == 0,
            warning("fan_control declared but no [[hardware.thermal.fan]] entries"@),
        ),
    }
}

fn lint_rise(fc: &FanControl, report: &mut LintReport)
    ensures
        final(report).findings() == old(report).findings() + rise_findings(
            *fc,
            fc.curve@.len() - 1,
        ),
{
    let ghost before = report.findings();
    assert(before + rise_findings(*fc, 0) =~= before);
    assert(rise_findings(*fc, -1) =~= rise_findings(*fc, 0));
    let mut i: usize = 1;
    while i < fc.curve.len()
        invariant
            1 <= i,
            i <= fc.curve@.len() || i == 1,
            report.findings() == before + rise_findings(*fc, i - 1),
        decreases fc.curve@.len() - i,
    {
        let a = &fc.curve[i - 1].temp_c;
        let b = &fc.curve[i].temp_c;
        report.error_if(
            a.at_least(b),
            cat5(
                "fan_control.curve temperatures must be strictly increasing (",
                a.shown.as_str(),
                " then ",
                b.shown.as_str(),
                ")",
            ),
        );
        i = i + 1;
        assert(report.findings() =~= before + rise_findings(*fc, i - 1));
    }
}

fn lint_duty(fc: &FanControl, report: &mut LintReport)
    ensures
        final(report).findings() == old(report).findings() + duty_findings(
            *fc,
            fc.curve@.len() as int,
        ),
{
    let ghost before = report.findings();
    assert(before + duty_findings(*fc, 0) =~= before);
    let mut i: usize = 0;
    while i < fc.curve.len()
        invariant
            i <= fc.curve@.len(),
            report.findings() == before + duty_findings(*fc, i as int),
        decreases fc.curve@.len() - i,
    {
        let pwm: u32 = fc.curve[i].pwm_percent;
        report.error_if(
            pwm > 100,
            cat3(
                "fan_control.curve pwm_percent ",
                decimal(pwm as u64).as_str(),
                " exceeds 100",
            ),
        );
        i = i + 1;
        assert(report.findings() =~= before + duty_findings(*fc, i as int));
    }
}

fn lint_control(thermal: &ThermalSection, report: &mut LintReport)
    ensures
        final(report).findings() == old(report).findings() + control_findings(*thermal),
{
    let ghost before = report.findings();
    match &thermal.fan_control {
        None => {},
        Some(fc) => {
            report.error_if(
                !has_sensor(&thermal.sensors, fc.sensor.as_str()),
                cat3(
                    "fan_control.sensor ",
                    quoted(fc.sensor.as_str()).as_str(),
                    " is not a declared thermal sensor",
                ),
            );
            report.error_if(
                fc.curve.len() == 0,
                "fan_control.curve must have at least one point".to_owned(),
            );
            lint_rise(fc, report);
            lint_duty(fc, report);
            report.error_if(
                fc.interval_secs == 0,
                "fan_control.interval_secs must be >= 1".to_owned(),
            );
            report.warn_if(
                thermal.fans.len() == 0,
                "fan_control declared but no [[hardware.thermal.fan]] entries".to_owned(),
            );
        },
    }
    assert(report.findings() =~= before + control_findings(*thermal));
}

/// What lint says of one transceiver.
pub open spec fn transceiver_finding(
    t: Transceiver,
    ports: Seq<PortDef>,
    roots: Seq<Seq<char>>,
    buses: Seq<u32>,
) -> Seq<Finding> {
    note(
        !port_named(ports, ports.len() as int, t.port@),
        error("transceiver references unknown port "@ + q(t.port@)),
    ) + bus_finding(t.bus, "transceiver for "@ + t.port@, roots) + match t.bus {
        BusRef::Number(bus) => note(
            !buses.contains(bus),
            warning(
                "transceiver for "@ + t.port@ + " on i2c bus "@ + dec(bus as int)
                    + " which no declared mux produces"@,
            ),
        ),
        BusRef::Named(name) => Seq::empty(),
    }
}

pub open spec fn transceiver_findings(
    ts: Seq<Transceiver>,
    ports: Seq<PortDef>,
    roots: Seq<Seq<char>>,
    buses: Seq<u32>,
    n: int,
) -> Seq<Finding>
    decreases n,
{
    if n <= 0 {
        Seq::empty()
    } else {
        transceiver_findings(ts, ports, roots, buses, n - 1) + transceiver_finding(
            ts[n - 1],
            ports,
            roots,
            buses,
        )
    }
}

fn lint_transceivers(
    ts: &Vec<Transceiver>,
    ports: &Vec<PortDef>,
    roots: &Vec<String>,
    buses: &Vec<u32>,
    report: &mut LintReport,
)
    ensures
        final(report).findings() == old(report).findings() + transceiver_findings(
            ts@,
            ports@,
            roots.deep_view(),
            buses@,
            ts@.len() as int,
        ),
{
    let ghost before = report.findings();
    let ghost known = roots.deep_view();
    assert(before + transceiver_findings(ts@, ports@, known, buses@, 0) =~= before);
    let mut i: usize = 0;
    while i < ts.len()
        invariant
            i <= ts@.len(),
            known == roots.deep_view(),
            report.findings() == before + transceiver_findings(
                ts@,
                ports@,
                known,
                buses@,
                i as int,
            ),
        decreases ts@.len() - i,
    {
        let t = &ts[i];
        let ghost mid = report.findings();
        report.error_if(
            !has_port_named(ports, ports.len(), t.port.as_str()),
            cat2("transceiver references unknown port ", quoted(t.port.as_str()).as_str()),
        );
        let what = cat2("transceiver for ", t.port.as_str());
        lint_bus(&t.bus, what.as_str(), roots, report);
        match &t.bus {
            BusRef::Number(bus) => {
                report.warn_if(
                    !has_bus(buses, *bus),
                    cat5(
                        "transceiver for ",
                        t.port.as_str(),
                        " on i2c bus ",
                        decimal(*bus as u64).as_str(),
                        " which no declared mux produces",
                    ),
                );
            },
            BusRef::Named(name) => {},
        }
        assert(report.findings() =~= mid + transceiver_finding(*t, ports@, known, buses@));
        i = i + 1;
        assert(report.findings() =~= before + transceiver_findings(
            ts@,
            ports@,
            known,
            buses@,
            i as int,
        ));
    }
}

/// What lint says of the i2c roots and muxes.
pub open spec fn topology_findings(
    i2c: I2cSection,
    roots: Seq<Seq<char>>,
    buses: Seq<u32>,
) -> Seq<Finding> {
    root_findings(i2c, i2c.roots@.len() as int) + mux_findings(
        i2c.muxes@,
        roots,
        i2c.muxes@.len() as int,
    ) + write_findings(i2c.pre_writes@, roots, i2c.pre_writes@.len() as int) + parent_findings(
        i2c.muxes@,
        buses,
        i2c.muxes@.len() as int,
    ) + note(
        i2c.muxes@.len() != 0 && roots.len() == 0,
        warning("i2c topology declares muxes but no root adapter to anchor them"@),
    )
}

/// What lint says of fans and temperatures.
pub open spec fn thermal_findings(thermal: ThermalSection) -> Seq<Finding> {
    fan_findings(thermal.fans@, thermal.fans@.len() as int) + sensor_findings(
        thermal.sensors@,
        thermal.sensors@.len() as int,
    ) + control_findings(thermal)
}

/// The findings of the `[hardware]` section.
pub open spec fn hardware_findings(hw: HardwareSection, ports: Seq<PortDef>) -> Seq<Finding> {
    let roots = declared_roots(hw.i2c, hw.i2c.roots@.len() as int);
    let buses = claimed_buses(hw.i2c.muxes@, hw.i2c.muxes@.len() as int);
    topology_findings(hw.i2c, roots, buses) + device_findings(
        hw.i2c.devices@,
        roots,
        buses,
        hw.i2c.devices@.len() as int,
    ) + psu_findings(hw.psus@, roots, hw.psus@.len() as int) + thermal_findings(hw.thermal)
        + transceiver_findings(
        hw.transceivers@,
        ports,
        roots,
        buses,
        hw.transceivers@.len() as int,
    ) + note(
        quirks::driver_named(hw.quirks.driver@) is None,
        error(
            "quirks driver "@ + q(hw.quirks.driver@)
                + " is not registered (known: generic, haliburton, as4610)"@,
        ),
    )
}

fn lint_topology(i2c: &I2cSection, report: &mut LintReport) -> (r: (Vec<String>, Vec<u32>))
    requires
        buses_fit(i2c.muxes@),
    ensures
        r.0.deep_view() == declared_roots(*i2c, i2c.roots@.len() as int),
        r.1@ == claimed_buses(i2c.muxes@, i2c.muxes@.len() as int),
        final(report).findings() == old(report).findings() + topology_findings(
            *i2c,
            r.0.deep_view(),
            r.1@,
        ),
{
    let ghost before = report.findings();
    let roots = lint_roots(i2c, report);
    let buses = lint_muxes(&i2c.muxes, &roots, report);
    lint_writes(&i2c.pre_writes, &roots, report);
    lint_parents(&i2c.muxes, &buses, report);
    assert(roots.deep_view().len() == roots@.len());
    report.warn_if(
        i2c.muxes.len() != 0 && roots.len() == 0,
        "i2c topology declares muxes but no root adapter to anchor them".to_owned(),
    );
    assert(report.findings() =~= before + topology_findings(*i2c, roots.deep_view(), buses@));
    (roots, buses)
}

fn lint_thermal(thermal: &ThermalSection, report: &mut LintReport)
    ensures
        final(report).findings() == old(report).findings() + thermal_findings(*thermal),
{
    let ghost before = report.findings();
    lint_fans(&thermal.fans, report);
    lint_sensors(&thermal.sensors, report);
    lint_control(thermal, report);
    assert(report.findings() =~= before + thermal_findings(*thermal));
}

fn lint_hardware(hw: &HardwareSection, ports: &Vec<PortDef>, report: &mut LintReport)
    requires
        buses_fit(hw.i2c.muxes@),
    ensures
        final(report).findings() == old(report).findings() + hardware_findings(*hw, ports@),
{
    let ghost before = report.findings();
    let (roots, buses) = lint_topology(&hw.i2c, report);
    lint_devices(&hw.i2c.devices, &roots, &buses, report);
    lint_psus(&hw.psus, &roots, report);
    lint_thermal(&hw.thermal, report);
    lint_transceivers(&hw.transceivers, ports, &roots, &buses, report);
    report.error_if(
        quirks::by_name(hw.quirks.driver.as_str()).is_none(),
        cat3(
            "quirks driver ",
            quoted(hw.quirks.driver.as_str()).as_str(),
            " is not registered (known: generic, haliburton, as4610)",
        ),
    );
    assert(report.findings() =~= before + hardware_findings(*hw, ports@));
}

// ----------------------------------------------------------------- lint

/// Everything lint reports of a platform, in order. `present` says of each
/// vendor file (see [`vendor_files`]) whether it exists.
pub open spec fn lint_findings(platform: Platform, present: Seq<bool>) -> Seq<Finding> {
    let m = platform.manifest;
    platform_findings(m.platform, platform.dir@) + sai_findings(
        m.sai,
        m.platform.asic_attach,
        present,
    ) + port_findings(platform.ports@, platform.ports@.len() as int) + group_findings(
        m.ports.groups@,
        m.ports.groups@.len() as int,
    ) + all_sdk_findings(platform.ports@, m.sai.backend) + hardware_findings(
        m.hardware,
        platform.ports@,
    )
}

/// Validate a loaded platform. Load errors (unparsable TOML, bad schema
/// version, ragged port groups) are already fatal before lint runs. The
/// caller looks for the vendor files and says which are present.
pub fn lint(platform: &Platform, present: &Vec<bool>) -> (report: LintReport)
    requires
        buses_fit(platform.manifest.hardware.i2c.muxes@),
    ensures
        report.findings() == lint_findings(*platform, present@),
{
    let mut report = LintReport::default();
    let m = &platform.manifest;
    lint_platform(&m.platform, platform.dir.as_str(), &mut report);
    lint_sai(&m.sai, m.platform.asic_attach, present, &mut report);
    lint_ports(&platform.ports, &mut report);
    lint_groups(&m.ports.groups, &mut report);
    lint_sdk_names(&platform.ports, m.sai.backend, &mut report);
    lint_hardware(&m.hardware, &platform.ports, &mut report);
    assert(report.findings() =~= lint_findings(*platform, present@));
    report
}

// ------------------------------------------------------------------ laws

/// Two lists of findings pass together where each passes.
proof fn lemma_pass_both(a: Seq<Finding>, b: Seq<Finding>)
    ensures
        all_pass(a + b) <==> all_pass(a) && all_pass(b),
{
    if all_pass(a + b) {
        assert forall|i: int| 0 <= i < a.len() implies (#[trigger] a[i]).severity
            != Severity::Error by {
            assert((a + b)[i] == a[i]);
        }
        assert forall|i: int| 0 <= i < b.len() implies (#[trigger] b[i]).severity
            != Severity::Error by {
            assert((a + b)[a.len() + i] == b[i]);
        }
    }
}

/// What each section of the findings says passes where the whole does.
proof fn lemma_pass_sections(platform: Platform, present: Seq<bool>)
    ensures
        all_pass(lint_findings(platform, present)) <==> {
            let m = platform.manifest;
            &&& all_pass(platform_findings(m.platform, platform.dir@))
            &&& all_pass(sai_findings(m.sai, m.platform.asic_attach, present))
            &&& all_pass(port_findings(platform.ports@, platform.ports@.len() as int))
            &&& all_pass(group_findings(m.ports.groups@, m.ports.groups@.len() as int))
            &&& all_pass(all_sdk_findings(platform.ports@, m.sai.backend))
            &&& all_pass(hardware_findings(m.hardware, platform.ports@))
        },
{
    let m = platform.manifest;
    let a = platform_findings(m.platform, platform.dir@);
    let b = sai_findings(m.sai, m.platform.asic_attach, present);
    let c = port_findings(platform.ports@, platform.ports@.len() as int);
    let d = group_findings(m.ports.groups@, m.ports.groups@.len() as int);
    let e = all_sdk_findings(platform.ports@, m.sai.backend);
    let f = hardware_findings(m.hardware, platform.ports@);
    lemma_pass_both(a, b);
    lemma_pass_both(a + b, c);
    lemma_pass_both(a + b + c, d);
    lemma_pass_both(a + b + c + d, e);
    lemma_pass_both(a + b + c + d + e, f);
}

proof fn lemma_files_pass_alike(
    files: Seq<Seq<char>>,
    one: Seq<bool>,
    other: Seq<bool>,
    n: int,
)
    ensures
        all_pass(file_findings(files, one, n)) == all_pass(file_findings(files, other, n)),
    decreases n,
{
    if n > 0 {
        lemma_files_pass_alike(files, one, other, n - 1);
        let a = file_finding(files[n - 1], n - 1 < one.len() && one[n - 1]);
        let b = file_finding(files[n - 1], n - 1 < other.len() && other[n - 1]);
        lemma_pass_both(file_findings(files, one, n - 1), a);
        lemma_pass_both(file_findings(files, other, n - 1), b);
        if crate::platform::has_root(files[n - 1]) {
            assert(a == b);
        } else {
            assert(all_pass(a) && all_pass(b));
        }
    }
}

/// Missing vendor files are warnings: whether a platform passes does not
/// depend on which of them are there.
pub proof fn lemma_vendor_files_never_fail(platform: Platform, one: Seq<bool>, other: Seq<bool>)
    ensures
        all_pass(lint_findings(platform, one)) == all_pass(lint_findings(platform, other)),
{
    let sai = platform.manifest.sai;
    let attach = platform.manifest.platform.asic_attach;
    let files = vendor_files(sai);
    let config = note(
        crate::platform::has_root(sai.config_bcm@),
        error(
            "sai.config_bcm "@ + crate::text::quoted_path_text(sai.config_bcm@)
                + " must be relative to the platform directory"@,
        ),
    );
    let front = backend_findings(sai, attach) + config;
    lemma_files_pass_alike(files, one, other, files.len() as int);
    lemma_pass_both(front, file_findings(files, one, files.len() as int));
    lemma_pass_both(front, file_findings(files, other, files.len() as int));
    lemma_pass_sections(platform, one);
    lemma_pass_sections(platform, other);
}

/// The relative paths among some files.
pub open spec fn relative_files(files: Seq<Seq<char>>) -> Seq<Seq<char>> {
    files.filter(|file: Seq<char>| !crate::platform::has_root(file))
}

/// One warning for each relative path, in order.
pub open spec fn absent_warnings(files: Seq<Seq<char>>) -> Seq<Finding> {
    relative_files(files).map_values(|file: Seq<char>| absent_warning(file))
}

proof fn lemma_both_counted(a: Seq<Finding>, b: Seq<Finding>)
    ensures
        (a + b).to_multiset() == a.to_multiset().add(b.to_multiset()),
{
    vstd::seq_lib::lemma_multiset_commutative(a, b);
}

proof fn lemma_absent_files(
    files: Seq<Seq<char>>,
    absent: Seq<bool>,
    there: Seq<bool>,
    n: int,
)
    requires
        0 <= n <= files.len(),
        forall|i: int| 0 <= i < files.len() && i < absent.len() ==> !(#[trigger] absent[i]),
        files.len() <= there.len(),
        forall|i: int| 0 <= i < files.len() ==> #[trigger] there[i],
    ensures
        file_findings(files, absent, n).to_multiset() == file_findings(
            files,
            there,
            n,
        ).to_multiset().add(absent_warnings(files.take(n)).to_multiset()),
    decreases n,
{
    broadcast use {
        vstd::multiset::group_multiset_axioms,
        vstd::seq_lib::group_to_multiset_ensures,
    };

    reveal(Seq::filter);
    let warnings = absent_warnings(files.take(n));
    if n > 0 {
        lemma_absent_files(files, absent, there, n - 1);
        let file = files[n - 1];
        let before = absent_warnings(files.take(n - 1));
        assert(files.take(n).drop_last() =~= files.take(n - 1));
        assert(files.take(n).last() == file);
        let missed = file_finding(file, n - 1 < absent.len() && absent[n - 1]);
        let found = file_finding(file, n - 1 < there.len() && there[n - 1]);
        assert(there[n - 1]);
        lemma_both_counted(file_findings(files, absent, n - 1), missed);
        lemma_both_counted(file_findings(files, there, n - 1), found);
        if crate::platform::has_root(file) {
            assert(warnings =~= before);
            assert(missed == found);
        } else {
            assert(warnings =~= before.push(absent_warning(file)));
            assert(missed == seq![absent_warning(file)]);
            assert(missed =~= Seq::empty().push(absent_warning(file)));
            assert(found =~= Seq::empty());
        }
        assert(file_findings(files, absent, n).to_multiset() =~= file_findings(
            files,
            there,
            n,
        ).to_multiset().add(warnings.to_multiset()));
    } else {
        assert(files.take(0).len() == 0);
        assert(warnings =~= Seq::empty());
        assert(file_findings(files, absent, n).to_multiset() =~= file_findings(
            files,
            there,
            n,
        ).to_multiset().add(warnings.to_multiset()));
    }
}

/// Absent vendor files add exactly one warning for each relative path, and
/// nothing else: of two platforms that differ only in where they stand, one
/// without any vendor file and one with all of them, the first has the
/// diagnostics of the second and those warnings, and passes where the second
/// does.
pub proof fn lemma_absent_files_only_warn(
    p: Platform,
    q: Platform,
    absent: Seq<bool>,
    there: Seq<bool>,
)
    requires
        p.manifest == q.manifest,
        p.ports@ == q.ports@,
        crate::platform::file_name_text(p.dir@) == crate::platform::file_name_text(q.dir@),
        forall|i: int| 0 <= i < absent.len() ==> !(#[trigger] absent[i]),
        vendor_files(q.manifest.sai).len() <= there.len(),
        forall|i: int| 0 <= i < there.len() ==> #[trigger] there[i],
    ensures
        lint_findings(p, absent).to_multiset() == lint_findings(q, there).to_multiset().add(
            absent_warnings(vendor_files(q.manifest.sai)).to_multiset(),
        ),
        absent_warnings(vendor_files(q.manifest.sai)).len() == relative_files(
            vendor_files(q.manifest.sai),
        ).len(),
        forall|i: int|
            0 <= i < absent_warnings(vendor_files(q.manifest.sai)).len() ==> (
            #[trigger] absent_warnings(vendor_files(q.manifest.sai))[i]).severity
                == Severity::Warning,
        all_pass(lint_findings(p, absent)) == all_pass(lint_findings(q, there)),
{
    broadcast use vstd::multiset::group_multiset_axioms;

    let m = q.manifest;
    let files = vendor_files(m.sai);
    let n = files.len() as int;
    let a = platform_findings(m.platform, q.dir@);
    assert(a == platform_findings(m.platform, p.dir@));
    let config = note(
        crate::platform::has_root(m.sai.config_bcm@),
        error(
            "sai.config_bcm "@ + crate::text::quoted_path_text(m.sai.config_bcm@)
                + " must be relative to the platform directory"@,
        ),
    );
    let front = backend_findings(m.sai, m.platform.asic_attach) + config;
    let c = port_findings(q.ports@, q.ports@.len() as int);
    let d = group_findings(m.ports.groups@, m.ports.groups@.len() as int);
    let e = all_sdk_findings(q.ports@, m.sai.backend);
    let f = hardware_findings(m.hardware, q.ports@);
    let missed = file_findings(files, absent, n);
    let found = file_findings(files, there, n);
    let warnings = absent_warnings(files);
    lemma_absent_files(files, absent, there, n);
    assert(files.take(n) =~= files);
    lemma_section_counts(a, front, missed, c, d, e, f);
    lemma_section_counts(a, front, found, c, d, e, f);
    assert(lint_findings(p, absent) == a + (front + missed) + c + d + e + f);
    assert(lint_findings(q, there) == a + (front + found) + c + d + e + f);
    assert(lint_findings(p, absent).to_multiset() =~= lint_findings(q, there).to_multiset().add(
        warnings.to_multiset(),
    ));
    lemma_vendor_files_never_fail(q, absent, there);
    assert(lint_findings(p, absent) == lint_findings(q, absent));
}

/// The sections of a report, counted.
proof fn lemma_section_counts(
    a: Seq<Finding>,
    front: Seq<Finding>,
    files: Seq<Finding>,
    c: Seq<Finding>,
    d: Seq<Finding>,
    e: Seq<Finding>,
    f: Seq<Finding>,
)
    ensures
        (a + (front + files) + c + d + e + f).to_multiset() == a.to_multiset().add(
            front.to_multiset().add(files.to_multiset()),
        ).add(c.to_multiset()).add(d.to_multiset()).add(e.to_multiset()).add(f.to_multiset()),
{
    lemma_both_counted(front, files);
    lemma_both_counted(a, front + files);
    lemma_both_counted(a + (front + files), c);
    lemma_both_counted(a + (front + files) + c, d);
    lemma_both_counted(a + (front + files) + c + d, e);
    lemma_both_counted(a + (front + files) + c + d + e, f);
}

proof fn lemma_ports_pass(ports: Seq<PortDef>, n: int, i: int)
    requires
        0 <= i < n <= ports.len(),
        all_pass(port_findings(ports, n)),
    ensures
        all_pass(port_finding(ports, i)),
    decreases n,
{
    lemma_pass_both(port_findings(ports, n - 1), port_finding(ports, n - 1));
    if i < n - 1 {
        lemma_ports_pass(ports, n - 1, i);
    }
}

proof fn lemma_port_pass_parts(ports: Seq<PortDef>, n: int)
    requires
        0 <= n < ports.len(),
        all_pass(port_finding(ports, n)),
    ensures
        !port_named(ports, n, ports[n].name@),
        !port_indexed(ports, n, ports[n].index),
        ports[n].speed_mbps != 0,
        ports[n].lanes@.len() > 0,
        all_pass(lane_findings(ports, n, ports[n].lanes@.len() as int)),
{
    let p = ports[n];
    let a = note(port_named(ports, n, p.name@), error("duplicate port name "@ + q(p.name@)));
    let b = note(
        port_indexed(ports, n, p.index),
        error(
            "duplicate front-panel index "@ + dec(p.index as int) + " (port "@ + q(p.name@) + ")"@,
        ),
    );
    let c = note(p.speed_mbps == 0, error("port "@ + q(p.name@) + " has speed_mbps = 0"@));
    let d = note(p.lanes@.len() == 0, error("port "@ + q(p.name@) + " has no lanes"@));
    let e = lane_findings(ports, n, p.lanes@.len() as int);
    lemma_pass_both(a, b);
    lemma_pass_both(a + b, c);
    lemma_pass_both(a + b + c, d);
    lemma_pass_both(a + b + c + d, e);
    assert(port_named(ports, n, p.name@) ==> a[0].severity == Severity::Error);
    assert(port_indexed(ports, n, p.index) ==> b[0].severity == Severity::Error);
    assert(p.speed_mbps == 0 ==> c[0].severity == Severity::Error);
    assert(p.lanes@.len() == 0 ==> d[0].severity == Severity::Error);
}

proof fn lemma_unowned(claims: Seq<(u32, Seq<char>)>, lane: u32, i: int)
    requires
        lane_owner(claims, lane) is None,
        0 <= i < claims.len(),
    ensures
        claims[i].0 != lane,
    decreases claims.len(),
{
    if i < claims.len() - 1 {
        lemma_unowned(claims.drop_last(), lane, i);
        assert(claims.drop_last()[i] == claims[i]);
    }
}

proof fn lemma_lanes_pass(ports: Seq<PortDef>, n: int, k: int, at: int)
    requires
        0 <= n < ports.len(),
        0 <= at < k <= ports[n].lanes@.len(),
        all_pass(lane_findings(ports, n, k)),
    ensures
        lane_owner(
            lane_claims(ports, n) + own_claims(ports[n], at),
            ports[n].lanes@[at],
        ) is None,
    decreases k,
{
    let last = lane_finding(
        lane_owner(lane_claims(ports, n) + own_claims(ports[n], k - 1), ports[n].lanes@[k - 1]),
        ports[n].lanes@[k - 1],
        ports[n].name@,
    );
    lemma_pass_both(lane_findings(ports, n, k - 1), last);
    if at < k - 1 {
        lemma_lanes_pass(ports, n, k - 1, at);
    } else if last.len() > 0 {
        assert(last[0].severity == Severity::Error);
    }
}

/// The claim that a port lays to a lane stands among those of the first `n`.
proof fn lemma_claim_stands(ports: Seq<PortDef>, n: int, i: int, a: int) -> (at: int)
    requires
        0 <= i < n <= ports.len(),
        0 <= a < ports[i].lanes@.len(),
    ensures
        0 <= at < lane_claims(ports, n).len(),
        lane_claims(ports, n)[at].0 == ports[i].lanes@[a],
    decreases n,
{
    let front = lane_claims(ports, n - 1);
    if i == n - 1 {
        front.len() + a
    } else {
        lemma_claim_stands(ports, n - 1, i, a)
    }
}

/// A platform that passes has no port without a speed or a lane, and no two
/// ports with the same name, the same front-panel index or a lane in common;
/// nor does a port have a lane twice.
pub proof fn lemma_passing_ports_are_distinct(
    platform: Platform,
    present: Seq<bool>,
    i: int,
    j: int,
    a: int,
    b: int,
)
    requires
        all_pass(lint_findings(platform, present)),
        0 <= i <= j < platform.ports@.len(),
        0 <= a < platform.ports@[i].lanes@.len(),
        0 <= b < platform.ports@[j].lanes@.len(),
    ensures
        platform.ports@[j].speed_mbps > 0,
        platform.ports@[j].lanes@.len() > 0,
        i < j ==> platform.ports@[i].name@ != platform.ports@[j].name@,
        i < j ==> platform.ports@[i].index != platform.ports@[j].index,
        i < j || a < b ==> platform.ports@[i].lanes@[a] != platform.ports@[j].lanes@[b],
{
    let ports = platform.ports@;
    lemma_pass_sections(platform, present);
    lemma_ports_pass(ports, ports.len() as int, j);
    lemma_port_pass_parts(ports, j);
    let lanes = ports[j].lanes@;
    lemma_lanes_pass(ports, j, lanes.len() as int, b);
    let claims = lane_claims(ports, j) + own_claims(ports[j], b);
    if i < j {
        let at = lemma_claim_stands(ports, j, i, a);
        lemma_unowned(claims, lanes[b], at);
        assert(claims[at] == lane_claims(ports, j)[at]);
        assert(ports[i].name@ != ports[j].name@);
        assert(ports[i].index != ports[j].index);
    } else if a < b {
        let at = lane_claims(ports, j).len() + a;
        lemma_unowned(claims, lanes[b], at);
        assert(claims[at] == own_claims(ports[j], b)[a]);
    }
}

/// The fields of the two backends do not mix: a platform that passes has every
/// field that its backend requires and none of the other's.
pub proof fn lemma_backends_do_not_mix(platform: Platform, present: Seq<bool>)
    requires
        all_pass(lint_findings(platform, present)),
    ensures
        ({
            let sai = platform.manifest.sai;
            match sai.backend {
                SaiBackendKind::Sai => {
                    &&& sai.package is Some
                    &&& sai.version_pin is Some
                    &&& sai.libsai_path is Some
                    &&& sai.shim_path is None
                    &&& sai.abi_major is None
                },
                SaiBackendKind::Openbcm => {
                    &&& sai.shim_path is Some
                    &&& sai.abi_major is Some
                    &&& sai.package is None
                    &&& sai.version_pin is None
                    &&& sai.api_headers is None
                    &&& sai.libsai_path is None
                },
            }
        }),
{
    let sai = platform.manifest.sai;
    let attach = platform.manifest.platform.asic_attach;
    lemma_pass_sections(platform, present);
    let config = note(
        crate::platform::has_root(sai.config_bcm@),
        error(
            "sai.config_bcm "@ + crate::text::quoted_path_text(sai.config_bcm@)
                + " must be relative to the platform directory"@,
        ),
    );
    let files = vendor_files(sai);
    lemma_pass_both(
        backend_findings(sai, attach) + config,
        file_findings(files, present, files.len() as int),
    );
    lemma_pass_both(backend_findings(sai, attach), config);
    match sai.backend {
        SaiBackendKind::Sai => lemma_sai_backend(sai),
        SaiBackendKind::Openbcm => lemma_openbcm_backend(sai, attach),
    }
}

/// A field's finding is an error where there is one.
proof fn lemma_no_error(f: Seq<Finding>)
    requires
        all_pass(f),
        f.len() > 0,
    ensures
        f[0].severity != Severity::Error,
{
}

proof fn lemma_sai_backend(sai: SaiSection)
    requires
        all_pass(sai_backend_findings(sai)),
    ensures
        sai.package is Some,
        sai.version_pin is Some,
        sai.libsai_path is Some,
        sai.shim_path is None,
        sai.abi_major is None,
{
    let a = required_field("package"@, sai.package);
    let b = required_field("version_pin"@, sai.version_pin);
    let c = required_path("libsai_path"@, "sai"@, sai.libsai_path);
    let d = openbcm_only("shim_path"@, sai.shim_path is Some);
    let e = openbcm_only("abi_major"@, sai.abi_major is Some);
    lemma_pass_both(a, b);
    lemma_pass_both(a + b, c);
    lemma_pass_both(a + b + c, d);
    lemma_pass_both(a + b + c + d, e);
    if a.len() > 0 {
        lemma_no_error(a);
    }
    if b.len() > 0 {
        lemma_no_error(b);
    }
    if c.len() > 0 {
        lemma_no_error(c);
    }
    if d.len() > 0 {
        lemma_no_error(d);
    }
    if e.len() > 0 {
        lemma_no_error(e);
    }
}

proof fn lemma_openbcm_backend(sai: SaiSection, attach: AsicAttach)
    requires
        all_pass(openbcm_findings(sai, attach)),
    ensures
        sai.shim_path is Some,
        sai.abi_major is Some,
        sai.package is None,
        sai.version_pin is None,
        sai.api_headers is None,
        sai.libsai_path is None,
{
    let a = required_path("shim_path"@, "openbcm"@, sai.shim_path);
    let b = note(
        sai.abi_major is None,
        error("sai.abi_major is required for backend \"openbcm\""@),
    );
    let c = vendor_sai_findings(sai);
    let d = note(
        attach != AsicAttach::Soc,
        warning(
            "backend \"openbcm\" with platform.asic_attach = \"pcie\": an on-die CMIC has no PCI device, so --auto-mock would mock real hardware"@,
        ),
    );
    lemma_pass_both(a, b);
    lemma_pass_both(a + b, c);
    lemma_pass_both(a + b + c, d);
    let p = sai_only("package"@, sai.package is Some);
    let v = sai_only("version_pin"@, sai.version_pin is Some);
    let h = sai_only("api_headers"@, sai.api_headers is Some);
    let l = sai_only("libsai_path"@, sai.libsai_path is Some);
    lemma_pass_both(p, v);
    lemma_pass_both(p + v, h);
    lemma_pass_both(p + v + h, l);
    if a.len() > 0 {
        lemma_no_error(a);
    }
    if b.len() > 0 {
        lemma_no_error(b);
    }
    if p.len() > 0 {
        lemma_no_error(p);
    }
    if v.len() > 0 {
        lemma_no_error(v);
    }
    if h.len() > 0 {
        lemma_no_error(h);
    }
    if l.len() > 0 {
        lemma_no_error(l);
    }
}

} // verus!
