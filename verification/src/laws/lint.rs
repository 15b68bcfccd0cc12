//! Laws of checking platforms: when a platform passes, and when it passes
//! without a word.

use vstd::prelude::*;

use crate::lint::{Finding, Severity};
use crate::platform::{Platform, PortDef};
use crate::schema::{
    AsicAttach, BusRef, FanControl, FanDef, HardwareSection, I2cDevice, I2cMux, I2cSection,
    I2cWrite, PlatformSection, PortGroup, Psu, SaiBackendKind, SaiSection, ThermalSection,
    ThermalSensor, Transceiver,
};

verus! {

broadcast proof fn lemma_both(a: Seq<Finding>, b: Seq<Finding>)
    ensures
        #[trigger] crate::lint::all_pass(a + b) == (crate::lint::all_pass(a)
            && crate::lint::all_pass(b)),
{
    let s = a + b;
    if crate::lint::all_pass(s) {
        assert forall|i: int| 0 <= i < a.len() implies (#[trigger] a[i]).severity
            != Severity::Error by {
            assert(s[i] == a[i]);
        }
        assert forall|i: int| 0 <= i < b.len() implies (#[trigger] b[i]).severity
            != Severity::Error by {
            assert(s[a.len() + i] == b[i]);
        }
    }
}

broadcast proof fn lemma_one(holds: bool, f: Finding)
    ensures
        #[trigger] crate::lint::all_pass(crate::lint::note(holds, f)) == (!holds || f.severity
            != Severity::Error),
{
    if holds {
        assert(crate::lint::note(holds, f)[0] == f);
    }
}

broadcast proof fn lemma_single(f: Finding)
    ensures
        #[trigger] crate::lint::all_pass(seq![f]) == (f.severity != Severity::Error),
{
    assert(seq![f][0] == f);
}

broadcast proof fn lemma_silence()
    ensures
        #[trigger] crate::lint::all_pass(Seq::empty()),
{
}

broadcast group group_passing {
    lemma_both,
    lemma_one,
    lemma_single,
    lemma_silence,
}

/// Is there nothing in a text but white space?
pub open spec fn blank(s: Seq<char>) -> bool {
    crate::text::trim_text(s).len() == 0
}

/// Does a path start at the root?
pub open spec fn rooted(path: Seq<char>) -> bool {
    path.len() > 0 && path[0] == '/'
}

/// A platform's identity passes where its name is lower case letters, digits
/// and hyphens, its machine string is one of letters, digits, hyphens and
/// underscores that ends in a revision and starts as its processor asks for,
/// and its vendor, model, ASIC and ASIC family are given. It passes in silence
/// where its directory has its name and its family is the known one.
pub proof fn lemma_identities_pass(p: PlatformSection, dir: Seq<char>)
    ensures
        ({
            let f = crate::lint::platform_findings(p, dir);
            let id = p.id@.len() > 0 && forall|i: int|
                0 <= i < p.id@.len() ==> ('a' <= #[trigger] p.id@[i] <= 'z' || '0' <= p.id@[i]
                    <= '9' || p.id@[i] == '-');
            let onie = crate::lint::onie_ok(p.onie_machine@);
            let given = !blank(p.vendor@) && !blank(p.model@) && !blank(p.asic_family@) && !blank(
                p.asic@,
            );
            let cpu = (p.cpu_arch@ == "amd64"@ && crate::text::begins_with(
                p.onie_machine@,
                "x86_64-"@,
            )) || (p.cpu_arch@ == "armhf"@ && crate::text::begins_with(p.onie_machine@, "arm-"@));
            let named = crate::platform::file_name_text(dir) matches Some(n) ==> n == p.id@ || n
                == "_template"@;
            &&& crate::lint::all_pass(f) <==> id && onie && given && cpu
            &&& f.len() == 0 <==> id && onie && given && cpu && named && p.asic_family@
                == "broadcom-xgs"@
        }),
{
    broadcast use group_passing;

    reveal_strlit("amd64");
    reveal_strlit("armhf");
    assert("amd64"@[1] != "armhf"@[1]);
    lemma_arch(p);
    lemma_identity(p, dir);
    lemma_fields(p);
}

proof fn lemma_arch(p: PlatformSection)
    ensures
        ({
            let f = crate::lint::arch_findings(p);
            let cpu = (p.cpu_arch@ == "amd64"@ && crate::text::begins_with(
                p.onie_machine@,
                "x86_64-"@,
            )) || (p.cpu_arch@ == "armhf"@ && crate::text::begins_with(p.onie_machine@, "arm-"@));
            &&& crate::lint::all_pass(f) <==> cpu
            &&& f.len() == 0 <==> cpu
        }),
{
    broadcast use group_passing;

    reveal_strlit("amd64");
    reveal_strlit("armhf");
    assert("amd64"@[1] != "armhf"@[1]);
}

proof fn lemma_identity(p: PlatformSection, dir: Seq<char>)
    ensures
        ({
            let f = crate::lint::identity_findings(p, dir);
            let named = crate::platform::file_name_text(dir) matches Some(n) ==> n == p.id@ || n
                == "_template"@;
            &&& crate::lint::all_pass(f) <==> crate::lint::id_ok(p.id@) && crate::lint::onie_ok(
                p.onie_machine@,
            )
            &&& f.len() == 0 <==> crate::lint::id_ok(p.id@) && crate::lint::onie_ok(
                p.onie_machine@,
            ) && named
        }),
{
    broadcast use group_passing;

}

proof fn lemma_fields(p: PlatformSection)
    ensures
        ({
            let f = crate::lint::field_findings(p);
            let given = !blank(p.vendor@) && !blank(p.model@) && !blank(p.asic_family@) && !blank(
                p.asic@,
            );
            &&& crate::lint::all_pass(f) <==> given
            &&& f.len() == 0 <==> given && p.asic_family@ == "broadcom-xgs"@
        }),
{
    broadcast use group_passing;

}

/// A machine string ends in a revision: a hyphen that is not its first
/// character, an r and at least one digit.
pub proof fn lemma_machine_strings(s: Seq<char>, k: int)
    ensures
        0 < k && k + 2 < s.len() && s[k] == '-' && s[k + 1] == 'r' && (forall|j: int|
            k + 2 <= j < s.len() ==> '0' <= #[trigger] s[j] <= '9') && (forall|j: int|
            0 <= j < k ==> ('a' <= #[trigger] s[j] <= 'z' || 'A' <= s[j] <= 'Z' || '0' <= s[j]
                <= '9' || s[j] == '_' || s[j] == '-')) ==> crate::lint::onie_ok(s),
        crate::lint::onie_ok(s) ==> (forall|j: int|
            0 <= j < s.len() ==> ('a' <= #[trigger] s[j] <= 'z' || 'A' <= s[j] <= 'Z' || '0' <= s[j]
                <= '9' || s[j] == '_' || s[j] == '-')),
        crate::lint::onie_ok(s) ==> s.len() >= 4 && '0' <= s.last() <= '9',
{
    if 0 < k && k + 2 < s.len() && s[k] == '-' && s[k + 1] == 'r' && (forall|j: int|
        k + 2 <= j < s.len() ==> '0' <= #[trigger] s[j] <= '9') && (forall|j: int|
        0 <= j < k ==> ('a' <= #[trigger] s[j] <= 'z' || 'A' <= s[j] <= 'Z' || '0' <= s[j] <= '9'
            || s[j] == '_' || s[j] == '-')) {
        assert(crate::lint::onie_revision(s, k));
        assert forall|j: int| 0 <= j < s.len() implies crate::lint::onie_char(#[trigger] s[j]) by {
            if j >= k + 2 {
                assert('0' <= s[j] <= '9');
            }
        }
    }
    if crate::lint::onie_ok(s) {
        let n = choose|n: int| crate::lint::onie_revision(s, n);
        assert(crate::lint::is_digit(s[s.len() - 1]));
        assert forall|j: int| 0 <= j < s.len() implies ('a' <= #[trigger] s[j] <= 'z' || 'A' <= s[j]
            <= 'Z' || '0' <= s[j] <= '9' || s[j] == '_' || s[j] == '-') by {
            assert(crate::lint::onie_char(s[j]));
        }
    }
}

/// What the backend of a platform asks for: a vendor SAI its package, its
/// version and the path of its library, and nothing of the other backend; the
/// other backend the path of its shim and its ABI, and nothing of a vendor
/// SAI.
pub open spec fn backend_is_whole(sai: SaiSection) -> bool {
    match sai.backend {
        SaiBackendKind::Sai => {
            &&& sai.package matches Some(t) && !blank(t@)
            &&& sai.version_pin matches Some(t) && !blank(t@)
            &&& sai.libsai_path matches Some(t) && rooted(t@)
            &&& sai.shim_path is None
            &&& sai.abi_major is None
        },
        SaiBackendKind::Openbcm => {
            &&& sai.shim_path matches Some(t) && rooted(t@)
            &&& sai.abi_major is Some
            &&& sai.package is None
            &&& sai.version_pin is None
            &&& sai.api_headers is None
            &&& sai.libsai_path is None
        },
    }
}

proof fn lemma_backend(sai: SaiSection, attach: AsicAttach)
    ensures
        crate::lint::all_pass(crate::lint::backend_findings(sai, attach)) <==> backend_is_whole(
            sai,
        ),
        crate::lint::backend_findings(sai, attach).len() == 0 <==> backend_is_whole(sai) && (
        sai.backend is Openbcm ==> attach == AsicAttach::Soc),
{
    broadcast use group_passing;

    match sai.backend {
        SaiBackendKind::Sai => {
            lemma_sai(sai);
        },
        SaiBackendKind::Openbcm => {
            lemma_openbcm(sai, attach);
        },
    }
}

proof fn lemma_sai(sai: SaiSection)
    requires
        sai.backend is Sai,
    ensures
        crate::lint::all_pass(crate::lint::sai_backend_findings(sai)) <==> backend_is_whole(sai),
        crate::lint::sai_backend_findings(sai).len() == 0 <==> backend_is_whole(sai),
{
    broadcast use group_passing;

    let a = crate::lint::required_field("package"@, sai.package);
    let b = crate::lint::required_field("version_pin"@, sai.version_pin);
    let c = crate::lint::required_path("libsai_path"@, "sai"@, sai.libsai_path);
    assert(crate::lint::all_pass(a) <==> a.len() == 0);
    assert(crate::lint::all_pass(b) <==> b.len() == 0);
    assert(crate::lint::all_pass(c) <==> c.len() == 0);
}

proof fn lemma_openbcm(sai: SaiSection, attach: AsicAttach)
    requires
        sai.backend is Openbcm,
    ensures
        crate::lint::all_pass(crate::lint::openbcm_findings(sai, attach)) <==> backend_is_whole(
            sai,
        ),
        crate::lint::openbcm_findings(sai, attach).len() == 0 <==> backend_is_whole(sai) && attach
            == AsicAttach::Soc,
{
    broadcast use group_passing;

    let a = crate::lint::required_path("shim_path"@, "openbcm"@, sai.shim_path);
    let b = crate::lint::vendor_sai_findings(sai);
    assert(crate::lint::all_pass(a) <==> a.len() == 0);
    assert(crate::lint::all_pass(b) <==> b.len() == 0);
}

spec fn is_there(files: Seq<Seq<char>>, present: Seq<bool>, i: int) -> bool {
    !rooted(files[i]) && i < present.len() && present[i]
}

proof fn lemma_files(files: Seq<Seq<char>>, present: Seq<bool>, n: int)
    requires
        0 <= n <= files.len(),
    ensures
        crate::lint::all_pass(crate::lint::file_findings(files, present, n)) <==> forall|i: int|
            0 <= i < n ==> !rooted(#[trigger] files[i]),
        crate::lint::file_findings(files, present, n).len() == 0 <==> forall|i: int|
            0 <= i < n ==> #[trigger] is_there(files, present, i),
    decreases n,
{
    broadcast use group_passing;

    if n > 0 {
        lemma_files(files, present, n - 1);
        let last = crate::lint::file_finding(
            files[n - 1],
            n - 1 < present.len() && present[n - 1],
        );
        assert(crate::lint::all_pass(last) <==> !rooted(files[n - 1]));
        assert(last.len() == 0 <==> is_there(files, present, n - 1));
        let front = crate::lint::file_findings(files, present, n - 1);
        let all = crate::lint::file_findings(files, present, n);
        assert(all == front + last);
        if all.len() == 0 {
            assert forall|i: int| 0 <= i < n implies #[trigger] is_there(files, present, i) by {
                if i == n - 1 {
                    assert(last.len() == 0);
                }
            }
        }
        if forall|i: int| 0 <= i < n ==> #[trigger] is_there(files, present, i) {
            assert(is_there(files, present, n - 1));
        }
    }
}

/// The SAI section passes where the backend has what it asks for, and its
/// files are named below the platform's directory. It passes in silence where
/// all the files are there too, and an on-die ASIC is said to be one.
pub proof fn lemma_sai_sections_pass(sai: SaiSection, attach: AsicAttach, present: Seq<bool>)
    ensures
        ({
            let f = crate::lint::sai_findings(sai, attach, present);
            let below = !rooted(sai.config_bcm@) && forall|i: int|
                0 <= i < sai.extra_files@.len() ==> !rooted((#[trigger] sai.extra_files@[i])@);
            let there = present.len() > sai.extra_files@.len() && forall|i: int|
                0 <= i <= sai.extra_files@.len() ==> #[trigger] present[i];
            &&& crate::lint::all_pass(f) <==> backend_is_whole(sai) && below
            &&& f.len() == 0 <==> backend_is_whole(sai) && below && (sai.backend is Openbcm
                ==> attach == AsicAttach::Soc) && there
        }),
{
    broadcast use group_passing;

    let files = crate::lint::vendor_files(sai);
    lemma_backend(sai, attach);
    lemma_files(files, present, files.len() as int);
    assert(files.len() == sai.extra_files@.len() + 1);
    assert(files[0] == sai.config_bcm@);
    assert forall|i: int| 0 <= i < sai.extra_files@.len() implies files[i + 1] == (
    #[trigger] sai.extra_files@[i])@ by {}
    let below = !rooted(sai.config_bcm@) && forall|i: int|
        0 <= i < sai.extra_files@.len() ==> !rooted((#[trigger] sai.extra_files@[i])@);
    if below {
        assert forall|i: int| 0 <= i < files.len() implies !rooted(#[trigger] files[i]) by {
            if i > 0 {
                assert(files[i] == sai.extra_files@[i - 1]@);
            }
        }
    }
    if forall|i: int| 0 <= i < files.len() ==> !rooted(#[trigger] files[i]) {
        assert(!rooted(files[0]));
        assert forall|i: int| 0 <= i < sai.extra_files@.len() implies !rooted(
            (#[trigger] sai.extra_files@[i])@,
        ) by {
            assert(!rooted(files[i + 1]));
        }
    }
    let there = present.len() > sai.extra_files@.len() && forall|i: int|
        0 <= i <= sai.extra_files@.len() ==> #[trigger] present[i];
    if forall|i: int| 0 <= i < files.len() ==> #[trigger] is_there(files, present, i) {
        assert(is_there(files, present, files.len() - 1));
        assert forall|i: int| 0 <= i <= sai.extra_files@.len() implies #[trigger] present[i] by {
            assert(is_there(files, present, i));
        }
        assert forall|i: int| 0 <= i < files.len() implies !rooted(#[trigger] files[i]) by {
            assert(is_there(files, present, i));
        }
    }
    if below && there {
        assert forall|i: int| 0 <= i < files.len() implies #[trigger] is_there(
            files,
            present,
            i,
        ) by {
            assert(!rooted(files[i]) && present[i]);
        }
    }
}

// ----------------------------------------------------------------- ports

/// Does an earlier port, or an earlier lane of the same port, have a lane?
pub open spec fn lane_is_taken(ports: Seq<PortDef>, n: int, k: int) -> bool {
    ||| exists|i: int, a: int|
        0 <= i < n && 0 <= a < ports[i].lanes@.len() && #[trigger] ports[i].lanes@[a]
            == ports[n].lanes@[k]
    ||| exists|a: int| 0 <= a < k && #[trigger] ports[n].lanes@[a] == ports[n].lanes@[k]
}

proof fn lemma_owner(claims: Seq<(u32, Seq<char>)>, lane: u32)
    ensures
        crate::lint::lane_owner(claims, lane) is Some <==> exists|i: int|
            0 <= i < claims.len() && (#[trigger] claims[i]).0 == lane,
    decreases claims.len(),
{
    if claims.len() > 0 {
        let front = claims.drop_last();
        lemma_owner(front, lane);
        assert(claims.last() == claims[claims.len() - 1]);
        if exists|i: int| 0 <= i < front.len() && (#[trigger] front[i]).0 == lane {
            let i = choose|i: int| 0 <= i < front.len() && (#[trigger] front[i]).0 == lane;
            assert(claims[i].0 == lane);
        }
        if exists|i: int| 0 <= i < claims.len() && (#[trigger] claims[i]).0 == lane {
            let i = choose|i: int| 0 <= i < claims.len() && (#[trigger] claims[i]).0 == lane;
            if i < front.len() {
                assert(front[i].0 == lane);
            }
        }
    }
}

proof fn lemma_claims(ports: Seq<PortDef>, n: int, lane: u32)
    requires
        0 <= n <= ports.len(),
    ensures
        (exists|i: int|
            0 <= i < crate::lint::lane_claims(ports, n).len() && (#[trigger] crate::lint::lane_claims(
                ports,
                n,
            )[i]).0 == lane) <==> exists|i: int, a: int|
            0 <= i < n && 0 <= a < ports[i].lanes@.len() && #[trigger] ports[i].lanes@[a] == lane,
    decreases n,
{
    if n > 0 {
        lemma_claims(ports, n - 1, lane);
        let front = crate::lint::lane_claims(ports, n - 1);
        let p = ports[n - 1];
        let own = crate::lint::own_claims(p, p.lanes@.len() as int);
        let all = crate::lint::lane_claims(ports, n);
        assert(all == front + own);
        if exists|i: int| 0 <= i < all.len() && (#[trigger] all[i]).0 == lane {
            let i = choose|i: int| 0 <= i < all.len() && (#[trigger] all[i]).0 == lane;
            if i < front.len() {
                assert(front[i].0 == lane);
                let (j, a) = choose|j: int, a: int|
                    0 <= j < n - 1 && 0 <= a < ports[j].lanes@.len()
                        && #[trigger] ports[j].lanes@[a] == lane;
                assert(ports[j].lanes@[a] == lane);
            } else {
                assert(own[i - front.len()].0 == lane);
                assert(ports[n - 1].lanes@[i - front.len()] == lane);
            }
        }
        if exists|i: int, a: int|
            0 <= i < n && 0 <= a < ports[i].lanes@.len() && #[trigger] ports[i].lanes@[a] == lane {
            let (i, a) = choose|i: int, a: int|
                0 <= i < n && 0 <= a < ports[i].lanes@.len() && #[trigger] ports[i].lanes@[a]
                    == lane;
            if i < n - 1 {
                assert(ports[i].lanes@[a] == lane);
                let k = choose|k: int| 0 <= k < front.len() && (#[trigger] front[k]).0 == lane;
                assert(all[k].0 == lane);
            } else {
                assert(own[a].0 == lane);
                assert(all[front.len() + a].0 == lane);
            }
        }
    }
}

proof fn lemma_taken(ports: Seq<PortDef>, n: int, k: int)
    requires
        0 <= n < ports.len(),
        0 <= k < ports[n].lanes@.len(),
    ensures
        crate::lint::lane_owner(
            crate::lint::lane_claims(ports, n) + crate::lint::own_claims(ports[n], k),
            ports[n].lanes@[k],
        ) is Some <==> lane_is_taken(ports, n, k),
{
    let lane = ports[n].lanes@[k];
    let front = crate::lint::lane_claims(ports, n);
    let own = crate::lint::own_claims(ports[n], k);
    let all = front + own;
    lemma_owner(all, lane);
    lemma_claims(ports, n, lane);
    if exists|i: int| 0 <= i < all.len() && (#[trigger] all[i]).0 == lane {
        let i = choose|i: int| 0 <= i < all.len() && (#[trigger] all[i]).0 == lane;
        if i < front.len() {
            assert(front[i].0 == lane);
        } else {
            assert(own[i - front.len()].0 == lane);
            assert(ports[n].lanes@[i - front.len()] == lane);
        }
    }
    if lane_is_taken(ports, n, k) {
        if exists|a: int| 0 <= a < k && #[trigger] ports[n].lanes@[a] == lane {
            let a = choose|a: int| 0 <= a < k && #[trigger] ports[n].lanes@[a] == lane;
            assert(own[a].0 == lane);
            assert(all[front.len() + a].0 == lane);
        } else {
            let i = choose|i: int| 0 <= i < front.len() && (#[trigger] front[i]).0 == lane;
            assert(all[i].0 == lane);
        }
    }
}

proof fn lemma_lanes(ports: Seq<PortDef>, n: int, k: int)
    requires
        0 <= n < ports.len(),
        0 <= k <= ports[n].lanes@.len(),
    ensures
        ({
            let f = crate::lint::lane_findings(ports, n, k);
            let free = forall|a: int| 0 <= a < k ==> !#[trigger] lane_is_taken(ports, n, a);
            &&& crate::lint::all_pass(f) <==> free
            &&& f.len() == 0 <==> free
        }),
    decreases k,
{
    broadcast use group_passing;

    if k > 0 {
        lemma_lanes(ports, n, k - 1);
        lemma_taken(ports, n, k - 1);
        let free = forall|a: int| 0 <= a < k ==> !#[trigger] lane_is_taken(ports, n, a);
        if free {
            assert(!lane_is_taken(ports, n, k - 1));
        }
    }
}

/// Is a port of a table right: with a speed, with lanes, and with a name, an
/// index and lanes that no earlier port has?
pub open spec fn port_is_right(ports: Seq<PortDef>, n: int) -> bool {
    let p = ports[n];
    &&& p.speed_mbps > 0
    &&& p.lanes@.len() > 0
    &&& forall|i: int| 0 <= i < n ==> (#[trigger] ports[i]).name@ != p.name@
    &&& forall|i: int| 0 <= i < n ==> (#[trigger] ports[i]).index != p.index
    &&& forall|a: int| 0 <= a < p.lanes@.len() ==> !#[trigger] lane_is_taken(ports, n, a)
}

/// The ports of a table pass where each of them is right; then nothing is said
/// of them.
pub proof fn lemma_port_tables_pass(ports: Seq<PortDef>, n: int)
    requires
        0 <= n <= ports.len(),
    ensures
        ({
            let f = crate::lint::port_findings(ports, n);
            let right = forall|i: int| 0 <= i < n ==> #[trigger] port_is_right(ports, i);
            &&& crate::lint::all_pass(f) <==> right
            &&& f.len() == 0 <==> right
        }),
    decreases n,
{
    broadcast use group_passing;

    if n > 0 {
        lemma_port_tables_pass(ports, n - 1);
        lemma_one_port(ports, n - 1);
        let right = forall|i: int| 0 <= i < n ==> #[trigger] port_is_right(ports, i);
        if right {
            assert(port_is_right(ports, n - 1));
        }
    }
}

proof fn lemma_one_port(ports: Seq<PortDef>, n: int)
    requires
        0 <= n < ports.len(),
    ensures
        crate::lint::all_pass(crate::lint::port_finding(ports, n)) <==> port_is_right(ports, n),
        crate::lint::port_finding(ports, n).len() == 0 <==> port_is_right(ports, n),
{
    broadcast use group_passing;

    let p = ports[n];
    lemma_lanes(ports, n, p.lanes@.len() as int);
    assert(crate::lint::port_named(ports, n, p.name@) <==> !(forall|i: int|
        0 <= i < n ==> (#[trigger] ports[i]).name@ != p.name@));
    assert(crate::lint::port_indexed(ports, n, p.index) <==> !(forall|i: int|
        0 <= i < n ==> (#[trigger] ports[i]).index != p.index));
}

/// A group passes where it names no SDK ports or one for each of its ports.
pub proof fn lemma_groups_pass(groups: Seq<PortGroup>, n: int)
    requires
        0 <= n <= groups.len(),
    ensures
        ({
            let f = crate::lint::group_findings(groups, n);
            let right = forall|i: int|
                0 <= i < n ==> ((#[trigger] groups[i]).sdk_names@.len() == 0
                    || groups[i].sdk_names@.len() == groups[i].lanes@.len() as int / (
                if groups[i].lanes_per_port == 0 {
                    1
                } else {
                    groups[i].lanes_per_port as int
                }));
            &&& crate::lint::all_pass(f) <==> right
            &&& f.len() == 0 <==> right
        }),
    decreases n,
{
    broadcast use group_passing;

    if n > 0 {
        lemma_groups_pass(groups, n - 1);
    }
}

/// Is a port's SDK name right: not blank, and of no earlier port?
pub open spec fn sdk_is_right(ports: Seq<PortDef>, n: int) -> bool {
    ports[n].sdk_name matches Some(t) ==> !blank(t@) && forall|i: int|
        0 <= i < n ==> !((#[trigger] ports[i]).sdk_name matches Some(u) && u@ == t@)
}

proof fn lemma_sdk_owner(ports: Seq<PortDef>, n: int, sdk: Seq<char>)
    requires
        0 <= n <= ports.len(),
    ensures
        crate::lint::sdk_owner(crate::lint::sdk_claims(ports, n), sdk) is Some <==> exists|i: int|
            0 <= i < n && ((#[trigger] ports[i]).sdk_name matches Some(u) && u@ == sdk),
        crate::lint::sdk_claims(ports, n).len() == 0 <==> forall|i: int|
            0 <= i < n ==> (#[trigger] ports[i]).sdk_name is None,
    decreases n,
{
    if n > 0 {
        lemma_sdk_owner(ports, n - 1, sdk);
        let front = crate::lint::sdk_claims(ports, n - 1);
        if let Some(t) = ports[n - 1].sdk_name {
            let all = front.push((t@, ports[n - 1].name@));
            assert(all.drop_last() =~= front);
            assert(ports[n - 1].sdk_name is Some);
            if t@ == sdk {
                assert(ports[n - 1].sdk_name matches Some(u) && u@ == sdk);
            }
        }
    }
}

proof fn lemma_sdks(ports: Seq<PortDef>, n: int)
    requires
        0 <= n <= ports.len(),
    ensures
        ({
            let f = crate::lint::sdk_findings(ports, n);
            let right = forall|i: int| 0 <= i < n ==> #[trigger] sdk_is_right(ports, i);
            &&& crate::lint::all_pass(f) <==> right
            &&& f.len() == 0 <==> right
        }),
    decreases n,
{
    broadcast use group_passing;

    if n > 0 {
        lemma_sdks(ports, n - 1);
        let last = crate::lint::sdk_finding(ports, n - 1);
        if let Some(t) = ports[n - 1].sdk_name {
            lemma_sdk_owner(ports, n - 1, t@);
        }
        assert(crate::lint::all_pass(last) <==> sdk_is_right(ports, n - 1));
        assert(last.len() == 0 <==> sdk_is_right(ports, n - 1));
        let right = forall|i: int| 0 <= i < n ==> #[trigger] sdk_is_right(ports, i);
        if right {
            assert(sdk_is_right(ports, n - 1));
        }
    }
}

/// The SDK names of the ports pass where each is right; without a vendor SAI
/// they pass in silence only where there is one.
pub proof fn lemma_sdk_names_pass(ports: Seq<PortDef>, backend: SaiBackendKind)
    ensures
        ({
            let f = crate::lint::all_sdk_findings(ports, backend);
            let right = forall|i: int| 0 <= i < ports.len() ==> #[trigger] sdk_is_right(ports, i);
            &&& crate::lint::all_pass(f) <==> right
            &&& f.len() == 0 <==> right && (backend == SaiBackendKind::Openbcm ==> exists|i: int|
                0 <= i < ports.len() && (#[trigger] ports[i]).sdk_name is Some)
        }),
{
    broadcast use group_passing;

    lemma_sdks(ports, ports.len() as int);
    lemma_sdk_owner(ports, ports.len() as int, Seq::empty());
}

// -------------------------------------------------------------- hardware

proof fn lemma_named(s: Seq<Seq<char>>, name: Seq<char>, x: Seq<char>)
    ensures
        crate::lint::insert_name(s, name).contains(x) <==> s.contains(x) || x == name,
    decreases s.len(),
{
    let all = crate::lint::insert_name(s, name);
    if s.len() == 0 {
        assert(all[0] == name);
    } else if s.last() == name {
        assert(s[s.len() - 1] == name);
    } else if crate::text::text_before(s.last(), name) {
        assert(all[s.len() as int] == name);
        if s.contains(x) {
            let i = choose|i: int| 0 <= i < s.len() && s[i] == x;
            assert(all[i] == x);
        }
    } else {
        let front = s.drop_last();
        let some = crate::lint::insert_name(front, name);
        lemma_named(front, name, x);
        assert(all == some.push(s.last()));
        assert(all[some.len() as int] == s.last());
        if some.contains(x) {
            let i = choose|i: int| 0 <= i < some.len() && some[i] == x;
            assert(all[i] == x);
        }
        if all.contains(x) {
            let i = choose|i: int| 0 <= i < all.len() && all[i] == x;
            if i < some.len() {
                assert(some[i] == x);
                if front.contains(x) {
                    let k = choose|k: int| 0 <= k < front.len() && front[k] == x;
                    assert(s[k] == x);
                }
            } else {
                assert(s[s.len() - 1] == x);
            }
        }
        if s.contains(x) {
            let i = choose|i: int| 0 <= i < s.len() && s[i] == x;
            if i < front.len() {
                assert(front[i] == x);
                assert(some.contains(x));
            }
        }
    }
}

/// Is a root of the I2C tree known by a name: as the one that has no name of
/// its own, or as one of the first `n` with names?
pub open spec fn is_root(i2c: I2cSection, n: int, name: Seq<char>) -> bool {
    ||| i2c.root_adapter is Some && name == "root"@
    ||| exists|i: int| 0 <= i < n && (#[trigger] i2c.roots@[i]).name@ == name
}

proof fn lemma_roots(i2c: I2cSection, n: int, name: Seq<char>)
    requires
        0 <= n <= i2c.roots@.len(),
    ensures
        crate::lint::declared_roots(i2c, n).contains(name) <==> is_root(i2c, n, name),
    decreases n,
{
    if n > 0 {
        lemma_roots(i2c, n - 1, name);
        lemma_named(crate::lint::declared_roots(i2c, n - 1), i2c.roots@[n - 1].name@, name);
        if is_root(i2c, n - 1, name) && !(i2c.root_adapter is Some && name == "root"@) {
            let i = choose|i: int| 0 <= i < n - 1 && (#[trigger] i2c.roots@[i]).name@ == name;
            assert(i2c.roots@[i].name@ == name);
        }
        if exists|i: int| 0 <= i < n && (#[trigger] i2c.roots@[i]).name@ == name {
            let i = choose|i: int| 0 <= i < n && (#[trigger] i2c.roots@[i]).name@ == name;
            if i < n - 1 {
                assert(i2c.roots@[i].name@ == name);
            }
        }
        if i2c.roots@[n - 1].name@ == name {
            assert(is_root(i2c, n, name));
        }
    } else {
        let s = crate::lint::declared_roots(i2c, n);
        if i2c.root_adapter is Some {
            assert(s[0] == "root"@);
        }
    }
}

/// Is there a root at all?
pub open spec fn has_root(i2c: I2cSection) -> bool {
    i2c.root_adapter is Some || i2c.roots@.len() > 0
}

proof fn lemma_some_root(i2c: I2cSection, n: int)
    requires
        0 <= n <= i2c.roots@.len(),
    ensures
        crate::lint::declared_roots(i2c, n).len() == 0 <==> i2c.root_adapter is None && n == 0,
    decreases n,
{
    if n > 0 {
        lemma_some_root(i2c, n - 1);
        let name = i2c.roots@[n - 1].name@;
        let s = crate::lint::declared_roots(i2c, n - 1);
        lemma_named(s, name, name);
        assert(crate::lint::insert_name(s, name).contains(name));
    }
}

/// Is a root right: with a name and an adapter, and named as none before it?
pub open spec fn root_is_right(i2c: I2cSection, n: int) -> bool {
    &&& !blank(i2c.roots@[n].name@)
    &&& !blank(i2c.roots@[n].adapter@)
    &&& !is_root(i2c, n, i2c.roots@[n].name@)
}

proof fn lemma_root_findings(i2c: I2cSection, n: int)
    requires
        0 <= n <= i2c.roots@.len(),
    ensures
        ({
            let f = crate::lint::root_findings(i2c, n);
            let right = forall|i: int| 0 <= i < n ==> #[trigger] root_is_right(i2c, i);
            &&& crate::lint::all_pass(f) <==> right
            &&& f.len() == 0 <==> right
        }),
    decreases n,
{
    broadcast use group_passing;

    if n > 0 {
        lemma_root_findings(i2c, n - 1);
        lemma_roots(i2c, n - 1, i2c.roots@[n - 1].name@);
        let last = crate::lint::root_finding(i2c, n - 1);
        assert(crate::lint::all_pass(last) <==> root_is_right(i2c, n - 1));
        assert(last.len() == 0 <==> root_is_right(i2c, n - 1));
        let right = forall|i: int| 0 <= i < n ==> #[trigger] root_is_right(i2c, i);
        if right {
            assert(root_is_right(i2c, n - 1));
        }
    }
}

/// Is a bus that is named by its root one of a known root?
pub open spec fn bus_is_known(bus: BusRef, i2c: I2cSection) -> bool {
    bus matches BusRef::Named(name) ==> is_root(i2c, i2c.roots@.len() as int, name@)
}

/// Is a bus that is numbered one that a mux makes?
pub open spec fn bus_is_made(bus: BusRef, muxes: Seq<I2cMux>) -> bool {
    bus matches BusRef::Number(b) ==> makes(muxes, muxes.len() as int, b as int)
}

/// Does one of the first `n` muxes make a bus?
pub open spec fn makes(muxes: Seq<I2cMux>, n: int, bus: int) -> bool {
    exists|i: int|
        0 <= i < n && (#[trigger] muxes[i]).child_bus_base <= bus < muxes[i].child_bus_base
            + muxes[i].channels
}

proof fn lemma_bus(bus: BusRef, what: Seq<char>, i2c: I2cSection)
    ensures
        ({
            let f = crate::lint::bus_finding(
                bus,
                what,
                crate::lint::declared_roots(i2c, i2c.roots@.len() as int),
            );
            &&& crate::lint::all_pass(f) <==> bus_is_known(bus, i2c)
            &&& f.len() == 0 <==> bus_is_known(bus, i2c)
        }),
{
    broadcast use group_passing;

    if let BusRef::Named(name) = bus {
        lemma_roots(i2c, i2c.roots@.len() as int, name@);
    }
}

proof fn lemma_buses(muxes: Seq<I2cMux>, n: int, bus: u32)
    requires
        0 <= n <= muxes.len(),
        crate::lint::buses_fit(muxes),
    ensures
        crate::lint::claimed_buses(muxes, n).contains(bus) <==> makes(muxes, n, bus as int),
    decreases n,
{
    if n > 0 {
        lemma_buses(muxes, n - 1, bus);
        let m = muxes[n - 1];
        let front = crate::lint::claimed_buses(muxes, n - 1);
        let own = crate::lint::mux_buses(m, m.channels as int);
        let all = crate::lint::claimed_buses(muxes, n);
        assert(all == front + own);
        if all.contains(bus) {
            let i = choose|i: int| 0 <= i < all.len() && all[i] == bus;
            if i < front.len() {
                assert(front[i] == bus);
                let k = choose|k: int|
                    0 <= k < n - 1 && (#[trigger] muxes[k]).child_bus_base <= bus
                        < muxes[k].child_bus_base + muxes[k].channels;
                assert(muxes[k].child_bus_base <= bus);
            } else {
                assert(own[i - front.len()] == bus);
                assert(muxes[n - 1].child_bus_base <= bus);
            }
        }
        if makes(muxes, n, bus as int) {
            let k = choose|k: int|
                0 <= k < n && (#[trigger] muxes[k]).child_bus_base <= bus < muxes[k].child_bus_base
                    + muxes[k].channels;
            if k < n - 1 {
                assert(makes(muxes, n - 1, bus as int));
                let i = choose|i: int| 0 <= i < front.len() && front[i] == bus;
                assert(all[i] == bus);
            } else {
                assert(own[bus - m.child_bus_base] == bus);
                assert(all[front.len() + (bus - m.child_bus_base)] == bus);
            }
        }
    }
}

/// Is no bus of a mux one that an earlier mux makes?
pub open spec fn channels_are_free(muxes: Seq<I2cMux>, n: int, k: int) -> bool {
    forall|c: int|
        0 <= c < k ==> !#[trigger] makes(muxes, n, muxes[n].child_bus_base + c)
}

proof fn lemma_channels(muxes: Seq<I2cMux>, n: int, k: int)
    requires
        0 <= n < muxes.len(),
        0 <= k <= muxes[n].channels,
        crate::lint::buses_fit(muxes),
    ensures
        ({
            let f = crate::lint::channel_findings(muxes, n, k);
            &&& crate::lint::all_pass(f) <==> channels_are_free(muxes, n, k)
            &&& f.len() == 0 <==> channels_are_free(muxes, n, k)
        }),
    decreases k,
{
    broadcast use group_passing;

    if k > 0 {
        lemma_channels(muxes, n, k - 1);
        assert(muxes[n].child_bus_base + muxes[n].channels <= 0x1_0000_0000);
        let bus = (muxes[n].child_bus_base + (k - 1)) as u32;
        lemma_buses(muxes, n, bus);
        let front = crate::lint::claimed_buses(muxes, n);
        let own = crate::lint::mux_buses(muxes[n], k - 1);
        let all = front + own;
        assert(all.contains(bus) <==> front.contains(bus)) by {
            if all.contains(bus) {
                let i = choose|i: int| 0 <= i < all.len() && all[i] == bus;
                if i < front.len() {
                    assert(front[i] == bus);
                } else {
                    assert(own[i - front.len()] == bus);
                }
            }
            if front.contains(bus) {
                let i = choose|i: int| 0 <= i < front.len() && front[i] == bus;
                assert(all[i] == bus);
            }
        }
        assert(bus == muxes[n].child_bus_base + (k - 1));
        if channels_are_free(muxes, n, k) {
            assert(!makes(muxes, n, muxes[n].child_bus_base + (k - 1)));
        }
    }
}

/// Is a mux right: on a known root where it names one, and with buses of its
/// own?
pub open spec fn mux_is_right(i2c: I2cSection, n: int) -> bool {
    let m = i2c.muxes@[n];
    bus_is_known(m.parent_bus, i2c) && channels_are_free(i2c.muxes@, n, m.channels as int)
}

proof fn lemma_muxes(i2c: I2cSection, n: int)
    requires
        0 <= n <= i2c.muxes@.len(),
        crate::lint::buses_fit(i2c.muxes@),
    ensures
        ({
            let f = crate::lint::mux_findings(
                i2c.muxes@,
                crate::lint::declared_roots(i2c, i2c.roots@.len() as int),
                n,
            );
            let right = forall|i: int| 0 <= i < n ==> #[trigger] mux_is_right(i2c, i);
            &&& crate::lint::all_pass(f) <==> right
            &&& f.len() == 0 <==> right
        }),
    decreases n,
{
    broadcast use group_passing;

    if n > 0 {
        let m = i2c.muxes@[n - 1];
        lemma_muxes(i2c, n - 1);
        lemma_channels(i2c.muxes@, n - 1, m.channels as int);
        lemma_bus(
            m.parent_bus,
            "i2c mux "@ + crate::lint::q(m.name@) + " parent_bus"@,
            i2c,
        );
        let right = forall|i: int| 0 <= i < n ==> #[trigger] mux_is_right(i2c, i);
        if right {
            assert(mux_is_right(i2c, n - 1));
        }
    }
}

proof fn lemma_writes(writes: Seq<I2cWrite>, i2c: I2cSection, n: int)
    requires
        0 <= n <= writes.len(),
    ensures
        ({
            let f = crate::lint::write_findings(
                writes,
                crate::lint::declared_roots(i2c, i2c.roots@.len() as int),
                n,
            );
            let right = forall|i: int|
                0 <= i < n ==> bus_is_known((#[trigger] writes[i]).bus, i2c);
            &&& crate::lint::all_pass(f) <==> right
            &&& f.len() == 0 <==> right
        }),
    decreases n,
{
    broadcast use group_passing;

    if n > 0 {
        lemma_writes(writes, i2c, n - 1);
        lemma_bus(
            writes[n - 1].bus,
            "i2c pre_write "@ + crate::lint::q(writes[n - 1].purpose@),
            i2c,
        );
    }
}

proof fn lemma_parents(muxes: Seq<I2cMux>, n: int)
    requires
        0 <= n <= muxes.len(),
        crate::lint::buses_fit(muxes),
    ensures
        ({
            let f = crate::lint::parent_findings(
                muxes,
                crate::lint::claimed_buses(muxes, muxes.len() as int),
                n,
            );
            &&& crate::lint::all_pass(f)
            &&& f.len() == 0 <==> forall|i: int|
                0 <= i < n ==> bus_is_made((#[trigger] muxes[i]).parent_bus, muxes)
        }),
    decreases n,
{
    broadcast use group_passing;

    if n > 0 {
        lemma_parents(muxes, n - 1);
        if let BusRef::Number(b) = muxes[n - 1].parent_bus {
            lemma_buses(muxes, muxes.len() as int, b);
        }
    }
}

/// The I2C tree passes where its roots and muxes are right and its writes go
/// to known roots. It passes in silence where every numbered parent is a bus
/// that a mux makes, and muxes have a root to stand on.
pub proof fn lemma_i2c_trees_pass(i2c: I2cSection)
    requires
        crate::lint::buses_fit(i2c.muxes@),
    ensures
        ({
            let f = crate::lint::topology_findings(
                i2c,
                crate::lint::declared_roots(i2c, i2c.roots@.len() as int),
                crate::lint::claimed_buses(i2c.muxes@, i2c.muxes@.len() as int),
            );
            let roots = forall|i: int|
                0 <= i < i2c.roots@.len() ==> #[trigger] root_is_right(i2c, i);
            let muxes = forall|i: int| 0 <= i < i2c.muxes@.len() ==> #[trigger] mux_is_right(i2c, i);
            let writes = forall|i: int|
                0 <= i < i2c.pre_writes@.len() ==> bus_is_known(
                    (#[trigger] i2c.pre_writes@[i]).bus,
                    i2c,
                );
            let parents = forall|i: int|
                0 <= i < i2c.muxes@.len() ==> bus_is_made(
                    (#[trigger] i2c.muxes@[i]).parent_bus,
                    i2c.muxes@,
                );
            &&& crate::lint::all_pass(f) <==> roots && muxes && writes
            &&& f.len() == 0 <==> roots && muxes && writes && parents && (i2c.muxes@.len() > 0
                ==> has_root(i2c))
        }),
{
    broadcast use group_passing;

    lemma_root_findings(i2c, i2c.roots@.len() as int);
    lemma_muxes(i2c, i2c.muxes@.len() as int);
    lemma_writes(i2c.pre_writes@, i2c, i2c.pre_writes@.len() as int);
    lemma_parents(i2c.muxes@, i2c.muxes@.len() as int);
    lemma_some_root(i2c, i2c.roots@.len() as int);
}

/// Devices pass on known roots, and in silence where each numbered bus is one
/// that a mux makes.
pub proof fn lemma_devices_pass(devices: Seq<I2cDevice>, i2c: I2cSection, n: int)
    requires
        0 <= n <= devices.len(),
        crate::lint::buses_fit(i2c.muxes@),
    ensures
        ({
            let f = crate::lint::device_findings(
                devices,
                crate::lint::declared_roots(i2c, i2c.roots@.len() as int),
                crate::lint::claimed_buses(i2c.muxes@, i2c.muxes@.len() as int),
                n,
            );
            let known = forall|i: int|
                0 <= i < n ==> bus_is_known((#[trigger] devices[i]).bus, i2c);
            let made = forall|i: int|
                0 <= i < n ==> bus_is_made((#[trigger] devices[i]).bus, i2c.muxes@);
            &&& crate::lint::all_pass(f) <==> known
            &&& f.len() == 0 <==> known && made
        }),
    decreases n,
{
    broadcast use group_passing;

    if n > 0 {
        let d = devices[n - 1];
        lemma_devices_pass(devices, i2c, n - 1);
        lemma_bus(d.bus, "i2c device "@ + d.purpose@ + " ("@ + d.driver@ + ")"@, i2c);
        if let BusRef::Number(b) = d.bus {
            lemma_buses(i2c.muxes@, i2c.muxes@.len() as int, b);
        }
    }
}

/// Power supplies pass on known roots.
pub proof fn lemma_supplies_pass(psus: Seq<Psu>, i2c: I2cSection, n: int)
    requires
        0 <= n <= psus.len(),
    ensures
        ({
            let f = crate::lint::psu_findings(
                psus,
                crate::lint::declared_roots(i2c, i2c.roots@.len() as int),
                n,
            );
            let known = forall|i: int| 0 <= i < n ==> bus_is_known((#[trigger] psus[i]).bus, i2c);
            &&& crate::lint::all_pass(f) <==> known
            &&& f.len() == 0 <==> known
        }),
    decreases n,
{
    broadcast use group_passing;

    if n > 0 {
        lemma_supplies_pass(psus, i2c, n - 1);
        lemma_bus(psus[n - 1].bus, "psu "@ + crate::lint::q(psus[n - 1].name@), i2c);
    }
}

/// Transceivers pass where their port is in the table and their root is known,
/// and in silence where each numbered bus is one that a mux makes.
pub proof fn lemma_transceivers_pass(
    ts: Seq<Transceiver>,
    ports: Seq<PortDef>,
    i2c: I2cSection,
    n: int,
)
    requires
        0 <= n <= ts.len(),
        crate::lint::buses_fit(i2c.muxes@),
    ensures
        ({
            let f = crate::lint::transceiver_findings(
                ts,
                ports,
                crate::lint::declared_roots(i2c, i2c.roots@.len() as int),
                crate::lint::claimed_buses(i2c.muxes@, i2c.muxes@.len() as int),
                n,
            );
            let known = forall|i: int|
                0 <= i < n ==> bus_is_known((#[trigger] ts[i]).bus, i2c) && port_is_listed(
                    ports,
                    ts[i].port@,
                );
            let made = forall|i: int|
                0 <= i < n ==> bus_is_made((#[trigger] ts[i]).bus, i2c.muxes@);
            &&& crate::lint::all_pass(f) <==> known
            &&& f.len() == 0 <==> known && made
        }),
    decreases n,
{
    broadcast use group_passing;

    if n > 0 {
        let t = ts[n - 1];
        lemma_transceivers_pass(ts, ports, i2c, n - 1);
        lemma_bus(t.bus, "transceiver for "@ + t.port@, i2c);
        if let BusRef::Number(b) = t.bus {
            lemma_buses(i2c.muxes@, i2c.muxes@.len() as int, b);
        }
        assert(crate::lint::port_named(ports, ports.len() as int, t.port@) == port_is_listed(
            ports,
            t.port@,
        ));
    }
}

/// Is a port in a table?
pub open spec fn port_is_listed(ports: Seq<PortDef>, name: Seq<char>) -> bool {
    exists|i: int| 0 <= i < ports.len() && (#[trigger] ports[i]).name@ == name
}

proof fn lemma_fans(fans: Seq<FanDef>, n: int)
    requires
        0 <= n <= fans.len(),
    ensures
        ({
            let f = crate::lint::fan_findings(fans, n);
            let right = forall|i: int| 0 <= i < n ==> (#[trigger] fans[i]).pwm_max > 0;
            &&& crate::lint::all_pass(f) <==> right
            &&& f.len() == 0 <==> right
        }),
    decreases n,
{
    broadcast use group_passing;

    if n > 0 {
        lemma_fans(fans, n - 1);
    }
}

proof fn lemma_sensors(sensors: Seq<ThermalSensor>, n: int)
    requires
        0 <= n <= sensors.len(),
    ensures
        ({
            let f = crate::lint::sensor_findings(sensors, n);
            let right = forall|i: int|
                0 <= i < n ==> !(#[trigger] sensors[i]).warn_c.spec_at_least(sensors[i].crit_c);
            &&& crate::lint::all_pass(f) <==> right
            &&& f.len() == 0 <==> right
        }),
    decreases n,
{
    broadcast use group_passing;

    if n > 0 {
        lemma_sensors(sensors, n - 1);
    }
}

/// Does the curve of a fan rise from a point to the next?
pub open spec fn rises(fc: FanControl, i: int) -> bool {
    !fc.curve@[i].temp_c.spec_at_least(fc.curve@[i + 1].temp_c)
}

proof fn lemma_rise(fc: FanControl, n: int)
    requires
        n < fc.curve@.len(),
    ensures
        ({
            let f = crate::lint::rise_findings(fc, n);
            let right = forall|i: int| 0 <= i < n ==> #[trigger] rises(fc, i);
            &&& crate::lint::all_pass(f) <==> right
            &&& f.len() == 0 <==> right
        }),
    decreases n,
{
    broadcast use group_passing;

    if n > 0 {
        lemma_rise(fc, n - 1);
        let right = forall|i: int| 0 <= i < n ==> #[trigger] rises(fc, i);
        if right {
            assert(rises(fc, n - 1));
        }
    }
}

proof fn lemma_duty(fc: FanControl, n: int)
    requires
        0 <= n <= fc.curve@.len(),
    ensures
        ({
            let f = crate::lint::duty_findings(fc, n);
            let right = forall|i: int|
                0 <= i < n ==> (#[trigger] fc.curve@[i]).pwm_percent <= 100;
            &&& crate::lint::all_pass(f) <==> right
            &&& f.len() == 0 <==> right
        }),
    decreases n,
{
    broadcast use group_passing;

    if n > 0 {
        lemma_duty(fc, n - 1);
    }
}

/// Is a fan control right: on a sensor that there is, with a curve that rises
/// and asks for no more than all, at an interval?
pub open spec fn control_is_right(fc: FanControl, sensors: Seq<ThermalSensor>) -> bool {
    &&& exists|i: int| 0 <= i < sensors.len() && (#[trigger] sensors[i]).name@ == fc.sensor@
    &&& fc.curve@.len() > 0
    &&& forall|i: int| 0 <= i < fc.curve@.len() - 1 ==> #[trigger] rises(fc, i)
    &&& forall|i: int| 0 <= i < fc.curve@.len() ==> (#[trigger] fc.curve@[i]).pwm_percent <= 100
    &&& fc.interval_secs > 0
}

/// Fans and sensors pass where each fan has a range, each sensor warns below
/// where it is critical, and the control is right. They pass in silence where
/// a control has a fan to turn.
pub proof fn lemma_thermals_pass(thermal: ThermalSection)
    ensures
        ({
            let f = crate::lint::thermal_findings(thermal);
            let fans = forall|i: int|
                0 <= i < thermal.fans@.len() ==> (#[trigger] thermal.fans@[i]).pwm_max > 0;
            let sensors = forall|i: int|
                0 <= i < thermal.sensors@.len() ==> !(
                #[trigger] thermal.sensors@[i]).warn_c.spec_at_least(thermal.sensors@[i].crit_c);
            let control = thermal.fan_control matches Some(fc) ==> control_is_right(
                fc,
                thermal.sensors@,
            );
            &&& crate::lint::all_pass(f) <==> fans && sensors && control
            &&& f.len() == 0 <==> fans && sensors && control && (thermal.fan_control is Some
                ==> thermal.fans@.len() > 0)
        }),
{
    broadcast use group_passing;

    lemma_fans(thermal.fans@, thermal.fans@.len() as int);
    lemma_sensors(thermal.sensors@, thermal.sensors@.len() as int);
    if let Some(fc) = thermal.fan_control {
        lemma_rise(fc, fc.curve@.len() - 1);
        lemma_duty(fc, fc.curve@.len() as int);
        let c = crate::lint::control_findings(thermal);
        assert(crate::lint::all_pass(c) <==> control_is_right(fc, thermal.sensors@));
        assert(c.len() == 0 <==> control_is_right(fc, thermal.sensors@) && thermal.fans@.len()
            > 0);
    }
}

/// The hardware passes where each part of it does and its quirks driver is one
/// that there is.
pub proof fn lemma_hardware_passes(hw: HardwareSection, ports: Seq<PortDef>)
    ensures
        ({
            let f = crate::lint::hardware_findings(hw, ports);
            let roots = crate::lint::declared_roots(hw.i2c, hw.i2c.roots@.len() as int);
            let buses = crate::lint::claimed_buses(hw.i2c.muxes@, hw.i2c.muxes@.len() as int);
            let tree = crate::lint::topology_findings(hw.i2c, roots, buses);
            let devices = crate::lint::device_findings(
                hw.i2c.devices@,
                roots,
                buses,
                hw.i2c.devices@.len() as int,
            );
            let supplies = crate::lint::psu_findings(hw.psus@, roots, hw.psus@.len() as int);
            let thermals = crate::lint::thermal_findings(hw.thermal);
            let optics = crate::lint::transceiver_findings(
                hw.transceivers@,
                ports,
                roots,
                buses,
                hw.transceivers@.len() as int,
            );
            let driver = hw.quirks.driver@ == "generic"@ || hw.quirks.driver@ == "haliburton"@
                || hw.quirks.driver@ == "as4610"@;
            &&& crate::lint::all_pass(f) <==> crate::lint::all_pass(tree) && crate::lint::all_pass(
                devices,
            ) && crate::lint::all_pass(supplies) && crate::lint::all_pass(thermals)
                && crate::lint::all_pass(optics) && driver
            &&& f.len() == 0 <==> tree.len() == 0 && devices.len() == 0 && supplies.len() == 0
                && thermals.len() == 0 && optics.len() == 0 && driver
        }),
{
    broadcast use group_passing;

}

/// A platform passes where each section does.
pub proof fn lemma_platforms_pass(platform: Platform, present: Seq<bool>)
    ensures
        ({
            let m = platform.manifest;
            let f = crate::lint::lint_findings(platform, present);
            let identity = crate::lint::platform_findings(m.platform, platform.dir@);
            let sai = crate::lint::sai_findings(m.sai, m.platform.asic_attach, present);
            let ports = crate::lint::port_findings(platform.ports@, platform.ports@.len() as int);
            let groups = crate::lint::group_findings(m.ports.groups@, m.ports.groups@.len() as int);
            let sdk = crate::lint::all_sdk_findings(platform.ports@, m.sai.backend);
            let hardware = crate::lint::hardware_findings(m.hardware, platform.ports@);
            &&& crate::lint::all_pass(f) <==> crate::lint::all_pass(identity)
                && crate::lint::all_pass(sai) && crate::lint::all_pass(ports)
                && crate::lint::all_pass(groups) && crate::lint::all_pass(sdk)
                && crate::lint::all_pass(hardware)
            &&& f.len() == identity.len() + sai.len() + ports.len() + groups.len() + sdk.len()
                + hardware.len()
        }),
{
    broadcast use group_passing;

}

} // verus!
