//! The configuration requests: what mgmtd pushes after every commit, checked
//! and turned into the engines' configurations. A request that is out of range
//! is refused with the reason, and changes nothing.

use vstd::prelude::*;

use crate::dot1x;
use crate::ip::{parse_ip, parse_v4};
use crate::lacp;
use crate::lldp;
use crate::ordmap::{OrdMap, TextSet};
use crate::snoop;
use crate::snoopsec;
use crate::snoopsec::Validate;
use crate::stp;
use crate::text::{cat2, copy_texts, decimal, quoted, same_text};

verus! {

/// The first reason in a list of two.
pub open spec fn first_of(a: Option<Seq<char>>, b: Option<Seq<char>>) -> Option<Seq<char>> {
    match a {
        Some(e) => Some(e),
        None => b,
    }
}

/// A reason, where a condition holds.
pub open spec fn refuse(bad: bool, reason: Seq<char>) -> Option<Seq<char>> {
    if bad {
        Some(reason)
    } else {
        None
    }
}

/// A number as the text of a reason shows it.
pub open spec fn shown(n: u32) -> Seq<char> {
    crate::text::decimal_text(n as nat)
}

/// A value, or another where it is 0.
pub open spec fn unless_zero(n: u32, other: u32) -> u32 {
    if n == 0 {
        other
    } else {
        n
    }
}

fn or_default(n: u32, other: u32) -> (r: u32)
    ensures
        r == unless_zero(n, other),
{
    if n == 0 {
        other
    } else {
        n
    }
}

// ------------------------------------------------------------------- LACP

/// A member's mode, as the request says it.
#[derive(Debug, Clone, Copy, PartialEq, Eq, Structural)]
pub enum LacpConfigMode {
    Unspecified,
    Active,
    Passive,
    On,
}

/// A group's fallback, as the request says it.
#[derive(Debug, Clone, Copy, PartialEq, Eq, Structural)]
pub enum LagFallbackMode {
    Unspecified,
    Static,
    Individual,
}

#[derive(Debug)]
pub struct LagMemberRequest {
    pub port: String,
    pub mode: LacpConfigMode,
    pub rate_fast: bool,
    /// 0 = the default.
    pub port_priority: u32,
}

#[derive(Debug)]
pub struct LagRequest {
    pub group: u32,
    pub min_links: u32,
    pub fallback: LagFallbackMode,
    /// 0 = the default.
    pub fallback_timeout_secs: u32,
    pub members: Vec<LagMemberRequest>,
}

/// Why a member is refused.
pub open spec fn member_error(m: LagMemberRequest) -> Option<Seq<char>> {
    first_of(
        refuse(m.mode is Unspecified, "unspecified lacp mode"@),
        refuse(m.port_priority > 0xffff, "bad port-priority"@),
    )
}

/// Why the first bad member, from the `n`th on, is refused.
pub open spec fn members_error(members: Seq<LagMemberRequest>, n: int) -> Option<Seq<char>>
    decreases members.len() - n,
{
    if n >= members.len() {
        None
    } else {
        first_of(member_error(members[n]), members_error(members, n + 1))
    }
}

/// Why a group is refused: its number, then its members in order, then its
/// minimum.
pub open spec fn lag_error(lag: LagRequest) -> Option<Seq<char>> {
    first_of(
        refuse(!(1 <= lag.group <= 64), "bad group "@ + shown(lag.group)),
        first_of(
            members_error(lag.members@, 0),
            refuse(lag.min_links > 0xff, "bad min-links"@),
        ),
    )
}

/// Why the first bad group, from the `n`th on, is refused.
pub open spec fn lags_error(lags: Seq<LagRequest>, n: int) -> Option<Seq<char>>
    decreases lags.len() - n,
{
    if n >= lags.len() {
        None
    } else {
        first_of(lag_error(lags[n]), lags_error(lags, n + 1))
    }
}

pub open spec fn member_mode(mode: LacpConfigMode) -> lacp::Mode {
    match mode {
        LacpConfigMode::Active => lacp::Mode::Active,
        LacpConfigMode::Passive => lacp::Mode::Passive,
        _ => lacp::Mode::On,
    }
}

/// The first `n` members; one that is named again replaces the earlier.
pub open spec fn members_map(
    members: Seq<LagMemberRequest>,
    n: int,
) -> Map<Seq<char>, lacp::MemberConfig>
    decreases n,
{
    if n <= 0 {
        Map::empty()
    } else {
        members_map(members, n - 1).insert(
            members[n - 1].port@,
            lacp::MemberConfig {
                mode: member_mode(members[n - 1].mode),
                rate_fast: members[n - 1].rate_fast,
                port_priority: unless_zero(members[n - 1].port_priority, 32768) as u16,
            },
        )
    }
}

/// A group's configuration is what a request asks for.
pub open spec fn is_lag(c: lacp::LagConfig, lag: LagRequest) -> bool {
    &&& c.group == lag.group
    &&& c.min_links == lag.min_links
    &&& c.fallback == (match lag.fallback {
        LagFallbackMode::Static => Some(lacp::Fallback::Static),
        LagFallbackMode::Individual => Some(lacp::Fallback::Individual),
        LagFallbackMode::Unspecified => None,
    })
    &&& c.fallback_timeout == unless_zero(lag.fallback_timeout_secs, 90) * 1000
    &&& c.members.wf()
    &&& c.members@ == members_map(lag.members@, lag.members@.len() as int)
}

fn lag_members(members: &Vec<LagMemberRequest>) -> (r: Result<
    OrdMap<String, lacp::MemberConfig>,
    String,
>)
    ensures
        match r {
            Ok(m) => members_error(members@, 0) is None && m.wf() && m@ == members_map(
                members@,
                members@.len() as int,
            ),
            Err(e) => members_error(members@, 0) == Some(e@),
        },
{
    let mut r: OrdMap<String, lacp::MemberConfig> = OrdMap::new();
    let mut i: usize = 0;
    while i < members.len()
        invariant
            i <= members@.len(),
            r.wf(),
            r@ == members_map(members@, i as int),
            members_error(members@, 0) == members_error(members@, i as int),
        decreases members@.len() - i,
    {
        let m = &members[i];
        let mode = match m.mode {
            LacpConfigMode::Active => lacp::Mode::Active,
            LacpConfigMode::Passive => lacp::Mode::Passive,
            LacpConfigMode::On => lacp::Mode::On,
            LacpConfigMode::Unspecified => {
                return Err("unspecified lacp mode".to_owned());
            },
        };
        if m.port_priority > 0xffff {
            return Err("bad port-priority".to_owned());
        }
        r.insert(
            m.port.clone(),
            lacp::MemberConfig {
                mode,
                rate_fast: m.rate_fast,
                port_priority: or_default(m.port_priority, 32768) as u16,
            },
        );
        i = i + 1;
    }
    Ok(r)
}

fn lag_config(lag: &LagRequest) -> (r: Result<lacp::LagConfig, String>)
    ensures
        match r {
            Ok(c) => lag_error(*lag) is None && is_lag(c, *lag),
            Err(e) => lag_error(*lag) == Some(e@),
        },
{
    if !(1 <= lag.group && lag.group <= 64) {
        return Err(cat2("bad group ", &decimal(lag.group as u64)));
    }
    let members = match lag_members(&lag.members) {
        Ok(m) => m,
        Err(e) => {
            return Err(e);
        },
    };
    if lag.min_links > 0xff {
        return Err("bad min-links".to_owned());
    }
    Ok(
        lacp::LagConfig {
            group: lag.group as u16,
            min_links: lag.min_links as u8,
            fallback: match lag.fallback {
                LagFallbackMode::Static => Some(lacp::Fallback::Static),
                LagFallbackMode::Individual => Some(lacp::Fallback::Individual),
                LagFallbackMode::Unspecified => None,
            },
            fallback_timeout: or_default(lag.fallback_timeout_secs, 90) as u64 * 1000,
            members,
        },
    )
}

/// Why a LAG request is refused.
pub open spec fn lag_request_error(system_priority: u32, lags: Seq<LagRequest>) -> Option<
    Seq<char>,
> {
    first_of(refuse(system_priority > 0xffff, "bad system-priority"@), lags_error(lags, 0))
}

/// The LAG configurations of a request, and the system priority.
pub fn lag_configs(system_priority: u32, lags: &Vec<LagRequest>) -> (r: Result<
    (u16, Vec<lacp::LagConfig>),
    String,
>)
    ensures
        match r {
            Ok(c) => {
                &&& lag_request_error(system_priority, lags@) is None
                &&& c.0 == unless_zero(system_priority, 32768)
                &&& c.1@.len() == lags@.len()
                &&& forall|i: int|
                    #![trigger c.1@[i]]
                    0 <= i < c.1@.len() ==> is_lag(c.1@[i], lags@[i])
            },
            Err(e) => lag_request_error(system_priority, lags@) == Some(e@),
        },
{
    if system_priority > 0xffff {
        return Err("bad system-priority".to_owned());
    }
    let mut configs: Vec<lacp::LagConfig> = Vec::new();
    let mut i: usize = 0;
    while i < lags.len()
        invariant
            i <= lags@.len(),
            configs@.len() == i,
            lags_error(lags@, 0) == lags_error(lags@, i as int),
            system_priority <= 0xffff,
            forall|j: int|
                #![trigger configs@[j]]
                0 <= j < i ==> is_lag(configs@[j], lags@[j]),
        decreases lags@.len() - i,
    {
        match lag_config(&lags[i]) {
            Ok(c) => {
                configs.push(c);
            },
            Err(e) => {
                return Err(e);
            },
        }
        i = i + 1;
    }
    Ok((or_default(system_priority, 32768) as u16, configs))
}

// ------------------------------------------------------------------- LLDP

#[derive(Debug)]
pub struct LldpRequest {
    pub disabled: bool,
    /// Seconds; 0 = the default.
    pub tx_interval: u32,
    /// 0 = the default.
    pub hold_multiplier: u32,
    pub disabled_ports: Vec<String>,
}

/// Why an LLDP request is refused.
pub open spec fn lldp_error(req: LldpRequest) -> Option<Seq<char>> {
    let interval = unless_zero(req.tx_interval, lldp::DEFAULT_TX_INTERVAL);
    let hold = unless_zero(req.hold_multiplier, lldp::DEFAULT_HOLD_MULTIPLIER as u32);
    first_of(
        refuse(!(5 <= interval <= 300), "bad tx-interval "@ + shown(interval)),
        refuse(!(2 <= hold <= 10), "bad hold-multiplier "@ + shown(hold)),
    )
}

/// The LLDP configuration of a request.
pub fn lldp_config(req: &LldpRequest) -> (r: Result<lldp::Config, String>)
    ensures
        match r {
            Ok(c) => {
                &&& lldp_error(*req) is None
                &&& c.wf()
                &&& c.disabled == req.disabled
                &&& c.tx_interval == unless_zero(req.tx_interval, lldp::DEFAULT_TX_INTERVAL) * 1000
                &&& c.hold_multiplier == unless_zero(
                    req.hold_multiplier,
                    lldp::DEFAULT_HOLD_MULTIPLIER as u32,
                )
                &&& c.disabled_ports@.dom() == crate::ordmap::name_set(
                    req.disabled_ports.deep_view(),
                )
            },
            Err(e) => lldp_error(*req) == Some(e@),
        },
{
    let interval: u32 = or_default(req.tx_interval, lldp::DEFAULT_TX_INTERVAL);
    if !(5 <= interval && interval <= 300) {
        return Err(cat2("bad tx-interval ", &decimal(interval as u64)));
    }
    let hold: u32 = or_default(req.hold_multiplier, lldp::DEFAULT_HOLD_MULTIPLIER as u32);
    if !(2 <= hold && hold <= 10) {
        return Err(cat2("bad hold-multiplier ", &decimal(hold as u64)));
    }
    Ok(
        lldp::Config {
            disabled: req.disabled,
            tx_interval: interval as u64 * 1000,
            hold_multiplier: hold as u8,
            disabled_ports: OrdMap::of_names(&req.disabled_ports),
        },
    )
}

// -------------------------------------------------------------------- STP

#[derive(Debug)]
pub struct StpPortRequest {
    pub port: String,
    pub portfast: bool,
    pub bpduguard: bool,
    /// 0 = derived from the link speed.
    pub cost: u32,
    /// 0 = the default.
    pub priority: u32,
}

#[derive(Debug)]
pub struct MstInstanceRequest {
    pub instance: u32,
    pub vlans: Vec<u32>,
}

#[derive(Debug)]
pub struct StpRequest {
    pub mode: String,
    /// 0 = the default, here and in the timers.
    pub priority: u32,
    pub hello_time: u32,
    pub max_age: u32,
    pub forward_time: u32,
    pub mst_name: String,
    pub mst_revision: u32,
    pub instances: Vec<MstInstanceRequest>,
    pub ports: Vec<StpPortRequest>,
}

/// The mode that a word stands for.
pub open spec fn stp_mode_of(word: Seq<char>) -> Option<stp::Mode> {
    if word == "mstp"@ || word == ""@ {
        Some(stp::Mode::Mstp)
    } else if word == "rstp"@ {
        Some(stp::Mode::Rstp)
    } else if word == "none"@ {
        Some(stp::Mode::Off)
    } else {
        None
    }
}

/// Is there a port, from the `n`th on, with a priority out of range?
pub open spec fn bad_port(ports: Seq<StpPortRequest>, n: int) -> bool
    decreases ports.len() - n,
{
    n < ports.len() && (ports[n].priority > 0xff || bad_port(ports, n + 1))
}

/// Is there an instance, from the `n`th on, with a number out of range?
pub open spec fn bad_instance(instances: Seq<MstInstanceRequest>, n: int) -> bool
    decreases instances.len() - n,
{
    n < instances.len() && (instances[n].instance > 0xff || bad_instance(instances, n + 1))
}

/// Why a spanning-tree request is refused.
pub open spec fn stp_error(req: StpRequest) -> Option<Seq<char>> {
    first_of(
        refuse(
            stp_mode_of(req.mode@) is None,
            "bad stp mode "@ + crate::text::quoted_text(req.mode@),
        ),
        first_of(
            refuse(bad_port(req.ports@, 0), "bad port priority"@),
            first_of(
                refuse(bad_instance(req.instances@, 0), "bad mst instance"@),
                first_of(
                    refuse(req.priority > 0xffff, "bad priority"@),
                    first_of(
                        refuse(req.hello_time > 0xff, "bad hello-time"@),
                        first_of(
                            refuse(req.max_age > 0xff, "bad max-age"@),
                            first_of(
                                refuse(req.forward_time > 0xff, "bad forward-time"@),
                                refuse(req.mst_revision > 0xffff, "bad mst revision"@),
                            ),
                        ),
                    ),
                ),
            ),
        ),
    )
}

/// The first `n` ports; one that is named again replaces the earlier.
pub open spec fn stp_ports_map(
    ports: Seq<StpPortRequest>,
    n: int,
) -> Map<Seq<char>, stp::PortConfig>
    decreases n,
{
    if n <= 0 {
        Map::empty()
    } else {
        stp_ports_map(ports, n - 1).insert(
            ports[n - 1].port@,
            stp::PortConfig {
                portfast: ports[n - 1].portfast,
                bpduguard: ports[n - 1].bpduguard,
                cost: if ports[n - 1].cost > 0 {
                    Some(ports[n - 1].cost)
                } else {
                    None
                },
                priority: unless_zero(ports[n - 1].priority, 128) as u8,
            },
        )
    }
}

/// The VLANs of the first `n` instances; one that is named again replaces the
/// earlier.
pub open spec fn instances_map(instances: Seq<MstInstanceRequest>, n: int) -> Map<u8, Seq<u16>>
    decreases n,
{
    if n <= 0 {
        Map::empty()
    } else {
        instances_map(instances, n - 1).insert(
            instances[n - 1].instance as u8,
            crate::topology::tagged_vlans(
                instances[n - 1].vlans@,
                instances[n - 1].vlans@.len() as int,
            ),
        )
    }
}

/// A table of VLAN lists as mathematical values.
pub open spec fn instances_view(m: OrdMap<u8, Vec<u16>>) -> Map<u8, Seq<u16>> {
    m@.map_values(|v: Vec<u16>| v@)
}

fn in_range_vlans(vlans: &Vec<u32>) -> (r: Vec<u16>)
    ensures
        r@ == crate::topology::tagged_vlans(vlans@, vlans@.len() as int),
{
    let mut r: Vec<u16> = Vec::new();
    let mut i: usize = 0;
    while i < vlans.len()
        invariant
            i <= vlans@.len(),
            r@ == crate::topology::tagged_vlans(vlans@, i as int),
        decreases vlans@.len() - i,
    {
        if vlans[i] <= 0xffff {
            r.push(vlans[i] as u16);
        }
        i = i + 1;
    }
    r
}

fn stp_ports(ports: &Vec<StpPortRequest>) -> (r: Option<OrdMap<String, stp::PortConfig>>)
    ensures
        match r {
            Some(m) => !bad_port(ports@, 0) && m.wf() && m@ == stp_ports_map(
                ports@,
                ports@.len() as int,
            ),
            None => bad_port(ports@, 0),
        },
{
    let mut r: OrdMap<String, stp::PortConfig> = OrdMap::new();
    let mut i: usize = 0;
    while i < ports.len()
        invariant
            i <= ports@.len(),
            r.wf(),
            r@ == stp_ports_map(ports@, i as int),
            bad_port(ports@, 0) == bad_port(ports@, i as int),
        decreases ports@.len() - i,
    {
        let p = &ports[i];
        if p.priority > 0xff {
            return None;
        }
        r.insert(
            p.port.clone(),
            stp::PortConfig {
                portfast: p.portfast,
                bpduguard: p.bpduguard,
                cost: if p.cost > 0 {
                    Some(p.cost)
                } else {
                    None
                },
                priority: or_default(p.priority, 128) as u8,
            },
        );
        i = i + 1;
    }
    Some(r)
}

fn stp_instances(instances: &Vec<MstInstanceRequest>) -> (r: Option<OrdMap<u8, Vec<u16>>>)
    ensures
        match r {
            Some(m) => !bad_instance(instances@, 0) && m.wf() && instances_view(m)
                == instances_map(instances@, instances@.len() as int),
            None => bad_instance(instances@, 0),
        },
{
    let mut r: OrdMap<u8, Vec<u16>> = OrdMap::new();
    let mut i: usize = 0;
    assert(instances_view(r) =~= Map::empty());
    while i < instances.len()
        invariant
            i <= instances@.len(),
            r.wf(),
            instances_view(r) == instances_map(instances@, i as int),
            bad_instance(instances@, 0) == bad_instance(instances@, i as int),
        decreases instances@.len() - i,
    {
        if instances[i].instance > 0xff {
            return None;
        }
        let ghost before = instances_view(r);
        let vlans = in_range_vlans(&instances[i].vlans);
        let ghost list = vlans@;
        r.insert(instances[i].instance as u8, vlans);
        assert(instances_view(r) =~= before.insert(instances@[i as int].instance as u8, list));
        i = i + 1;
    }
    Some(r)
}

fn stp_mode(word: &str) -> (r: Option<stp::Mode>)
    ensures
        r == stp_mode_of(word@),
{
    if same_text(word, "mstp") || same_text(word, "") {
        Some(stp::Mode::Mstp)
    } else if same_text(word, "rstp") {
        Some(stp::Mode::Rstp)
    } else if same_text(word, "none") {
        Some(stp::Mode::Off)
    } else {
        None
    }
}

/// The spanning-tree configuration of a request.
pub fn stp_config(req: &StpRequest) -> (r: Result<stp::Config, String>)
    ensures
        match r {
            Ok(c) => {
                &&& stp_error(*req) is None
                &&& c.wf()
                &&& Some(c.mode) == stp_mode_of(req.mode@)
                &&& c.priority == unless_zero(req.priority, 32768)
                &&& c.hello_time == unless_zero(req.hello_time, 2)
                &&& c.max_age == unless_zero(req.max_age, 20)
                &&& c.forward_time == unless_zero(req.forward_time, 15)
                &&& c.mst_name@ == req.mst_name@
                &&& c.mst_revision == req.mst_revision
                &&& instances_view(c.instances) == instances_map(
                    req.instances@,
                    req.instances@.len() as int,
                )
                &&& c.ports@ == stp_ports_map(req.ports@, req.ports@.len() as int)
            },
            Err(e) => stp_error(*req) == Some(e@),
        },
{
    let mode = match stp_mode(&req.mode) {
        Some(mode) => mode,
        None => {
            return Err(cat2("bad stp mode ", &quoted(&req.mode)));
        },
    };
    let ports = match stp_ports(&req.ports) {
        Some(ports) => ports,
        None => {
            return Err("bad port priority".to_owned());
        },
    };
    let instances = match stp_instances(&req.instances) {
        Some(instances) => instances,
        None => {
            return Err("bad mst instance".to_owned());
        },
    };
    if req.priority > 0xffff {
        return Err("bad priority".to_owned());
    }
    if req.hello_time > 0xff {
        return Err("bad hello-time".to_owned());
    }
    if req.max_age > 0xff {
        return Err("bad max-age".to_owned());
    }
    if req.forward_time > 0xff {
        return Err("bad forward-time".to_owned());
    }
    if req.mst_revision > 0xffff {
        return Err("bad mst revision".to_owned());
    }
    Ok(
        stp::Config {
            mode,
            priority: or_default(req.priority, 32768) as u16,
            hello_time: or_default(req.hello_time, 2) as u8,
            max_age: or_default(req.max_age, 20) as u8,
            forward_time: or_default(req.forward_time, 15) as u8,
            mst_name: req.mst_name.clone(),
            mst_revision: req.mst_revision as u16,
            instances,
            ports,
        },
    )
}

// --------------------------------------------------------------- snooping

#[derive(Debug)]
pub struct SnoopVlanRequest {
    pub vlan: u32,
    pub disabled: bool,
    pub fast_leave: bool,
    pub querier: bool,
    /// Empty = none.
    pub querier_address: String,
    pub mrouters: Vec<String>,
}

#[derive(Debug)]
pub struct SnoopingRequest {
    pub family: String,
    pub disabled: bool,
    /// 0 = the default.
    pub robustness: u32,
    pub vlans: Vec<SnoopVlanRequest>,
}

/// The engine that a family's word stands for.
pub open spec fn family_of(word: Seq<char>) -> Option<snoop::Family> {
    if word == "igmp"@ || word == ""@ {
        Some(snoop::Family::Igmp)
    } else if word == "mld"@ {
        Some(snoop::Family::Mld)
    } else {
        None
    }
}

/// Which snooping engine a request is for.
pub fn snoop_engine(family: &str) -> (r: Result<snoop::Family, String>)
    ensures
        match r {
            Ok(f) => family_of(family@) == Some(f),
            Err(e) => family_of(family@) is None && e@ == "bad snooping family "@
                + crate::text::quoted_text(family@),
        },
{
    if same_text(family, "igmp") || same_text(family, "") {
        Ok(snoop::Family::Igmp)
    } else if same_text(family, "mld") {
        Ok(snoop::Family::Mld)
    } else {
        Err(cat2("bad snooping family ", &quoted(family)))
    }
}

/// A VLAN's number is in range.
pub open spec fn is_vlan(n: u32) -> bool {
    1 <= n <= 4094
}

/// Why a VLAN is refused.
pub open spec fn snoop_vlan_error(v: SnoopVlanRequest) -> Option<Seq<char>> {
    first_of(
        refuse(!is_vlan(v.vlan), "bad vlan "@ + shown(v.vlan)),
        refuse(
            v.querier_address@.len() > 0 && crate::ip::ip_value(v.querier_address@) is None,
            "bad querier address "@ + crate::text::quoted_text(v.querier_address@),
        ),
    )
}

/// Why the first bad VLAN, from the `n`th on, is refused.
pub open spec fn snoop_vlans_error(vlans: Seq<SnoopVlanRequest>, n: int) -> Option<Seq<char>>
    decreases vlans.len() - n,
{
    if n >= vlans.len() {
        None
    } else {
        first_of(snoop_vlan_error(vlans[n]), snoop_vlans_error(vlans, n + 1))
    }
}

/// Why a snooping request is refused.
pub open spec fn snooping_error(req: SnoopingRequest) -> Option<Seq<char>> {
    first_of(
        refuse(
            family_of(req.family@) is None,
            "bad snooping family "@ + crate::text::quoted_text(req.family@),
        ),
        first_of(
            snoop_vlans_error(req.vlans@, 0),
            refuse(req.robustness > 0xff, "bad robustness"@),
        ),
    )
}

/// The last of the first `n` that is about a VLAN.
pub open spec fn last_vlan(vlans: Seq<SnoopVlanRequest>, n: int, id: u16) -> Option<int>
    decreases n,
{
    if n <= 0 {
        None
    } else if vlans[n - 1].vlan == id {
        Some(n - 1)
    } else {
        last_vlan(vlans, n - 1, id)
    }
}

/// A VLAN's configuration is what a request asks for.
pub open spec fn is_snoop_vlan(c: snoop::VlanConfig, v: SnoopVlanRequest) -> bool {
    &&& c.disabled == v.disabled
    &&& c.fast_leave == v.fast_leave
    &&& c.querier == v.querier
    &&& c.querier_address == (if v.querier_address@.len() > 0 {
        crate::ip::ip_value(v.querier_address@)
    } else {
        None
    })
    &&& c.static_mrouters@ == v.mrouters@
}

/// The table says of a VLAN what the last request about it asks for.
pub open spec fn configures(
    m: Map<u16, snoop::VlanConfig>,
    vlans: Seq<SnoopVlanRequest>,
    n: int,
    id: u16,
) -> bool {
    match last_vlan(vlans, n, id) {
        Some(i) => m.dom().contains(id) && is_snoop_vlan(m[id], vlans[i]),
        None => !m.dom().contains(id),
    }
}

fn snoop_vlan(v: &SnoopVlanRequest) -> (r: Result<snoop::VlanConfig, String>)
    ensures
        match r {
            Ok(c) => snoop_vlan_error(*v) is None && is_snoop_vlan(c, *v),
            Err(e) => snoop_vlan_error(*v) == Some(e@),
        },
{
    if !(1 <= v.vlan && v.vlan <= 4094) {
        return Err(cat2("bad vlan ", &decimal(v.vlan as u64)));
    }
    let querier_address = if v.querier_address.as_str().is_empty() {
        None
    } else {
        match parse_ip(&v.querier_address) {
            Some(address) => Some(address),
            None => {
                return Err(cat2("bad querier address ", &quoted(&v.querier_address)));
            },
        }
    };
    Ok(
        snoop::VlanConfig {
            disabled: v.disabled,
            fast_leave: v.fast_leave,
            querier: v.querier,
            querier_address,
            static_mrouters: copy_texts(&v.mrouters),
        },
    )
}

/// The snooping configuration of a request, and the family it is for.
pub fn snooping_config(req: &SnoopingRequest) -> (r: Result<
    (snoop::Family, snoop::Config),
    String,
>)
    ensures
        match r {
            Ok(c) => {
                &&& snooping_error(*req) is None
                &&& Some(c.0) == family_of(req.family@)
                &&& c.1.wf()
                &&& c.1.disabled == req.disabled
                &&& c.1.robustness == unless_zero(req.robustness, 2)
                &&& c.1.query_interval == 125_000
                &&& c.1.last_member_interval == 2_000
                &&& forall|id: u16| #[trigger]
                    configures(c.1.vlans@, req.vlans@, req.vlans@.len() as int, id)
            },
            Err(e) => snooping_error(*req) == Some(e@),
        },
{
    let family = match snoop_engine(&req.family) {
        Ok(family) => family,
        Err(e) => {
            return Err(e);
        },
    };
    let mut vlans: OrdMap<u16, snoop::VlanConfig> = OrdMap::new();
    let mut i: usize = 0;
    while i < req.vlans.len()
        invariant
            i <= req.vlans@.len(),
            vlans.wf(),
            Some(family) == family_of(req.family@),
            snoop_vlans_error(req.vlans@, 0) == snoop_vlans_error(req.vlans@, i as int),
            forall|id: u16| #[trigger] configures(vlans@, req.vlans@, i as int, id),
        decreases req.vlans@.len() - i,
    {
        match snoop_vlan(&req.vlans[i]) {
            Ok(c) => {
                let ghost had = vlans@;
                vlans.insert(req.vlans[i].vlan as u16, c);
                proof {
                    assert forall|id: u16| #[trigger]
                        configures(vlans@, req.vlans@, i + 1, id) by {
                        assert(configures(had, req.vlans@, i as int, id));
                    }
                }
            },
            Err(e) => {
                return Err(e);
            },
        }
        i = i + 1;
    }
    if req.robustness > 0xff {
        return Err("bad robustness".to_owned());
    }
    Ok(
        (
            family,
            snoop::Config {
                disabled: req.disabled,
                robustness: or_default(req.robustness, 2) as u8,
                vlans,
                query_interval: 125_000,
                last_member_interval: 2_000,
            },
        ),
    )
}

// ----------------------------------------------------------------- 802.1X

#[derive(Debug)]
pub struct RadiusRequest {
    pub ip: String,
    pub key: String,
    pub port: u32,
    pub timeout_secs: u32,
    pub retransmit: u32,
}

#[derive(Debug)]
pub struct Dot1xRequest {
    pub radius_servers: Vec<RadiusRequest>,
    pub reauth_interval: u32,
    pub ports: Vec<String>,
}

/// Why a RADIUS server is refused.
pub open spec fn radius_error(s: RadiusRequest) -> Option<Seq<char>> {
    first_of(
        refuse(s.port > 0xffff, "bad radius port"@),
        first_of(
            refuse(s.timeout_secs > 0xffff, "bad radius timeout"@),
            refuse(s.retransmit > 0xffff, "bad radius retransmit"@),
        ),
    )
}

/// Why the first bad server, from the `n`th on, is refused.
pub open spec fn dot1x_error(servers: Seq<RadiusRequest>, n: int) -> Option<Seq<char>>
    decreases servers.len() - n,
{
    if n >= servers.len() {
        None
    } else {
        first_of(radius_error(servers[n]), dot1x_error(servers, n + 1))
    }
}

/// The RADIUS server that a request asks for.
pub open spec fn radius_of(s: RadiusRequest) -> dot1x::RadiusModel {
    dot1x::RadiusModel {
        ip: s.ip@,
        key: s.key@,
        port: s.port as u16,
        timeout: s.timeout_secs as u16,
        retransmit: s.retransmit as u16,
    }
}

/// The 802.1X configuration of a request.
pub fn dot1x_config(req: &Dot1xRequest) -> (r: Result<dot1x::Config, String>)
    ensures
        match r {
            Ok(c) => {
                &&& dot1x_error(req.radius_servers@, 0) is None
                &&& c.wf()
                &&& c.reauth_interval == req.reauth_interval
                &&& c.ports@.dom() == crate::ordmap::name_set(req.ports.deep_view())
                &&& c.radius.deep_view() == Seq::new(
                    req.radius_servers@.len(),
                    |i: int| radius_of(req.radius_servers@[i]),
                )
            },
            Err(e) => dot1x_error(req.radius_servers@, 0) == Some(e@),
        },
{
    let mut radius: Vec<dot1x::Radius> = Vec::new();
    let mut i: usize = 0;
    while i < req.radius_servers.len()
        invariant
            i <= req.radius_servers@.len(),
            radius@.len() == i,
            dot1x_error(req.radius_servers@, 0) == dot1x_error(req.radius_servers@, i as int),
            forall|j: int|
                #![trigger radius@[j]]
                0 <= j < i ==> radius@[j].deep_view() == radius_of(req.radius_servers@[j]),
        decreases req.radius_servers@.len() - i,
    {
        let s = &req.radius_servers[i];
        if s.port > 0xffff {
            return Err("bad radius port".to_owned());
        }
        if s.timeout_secs > 0xffff {
            return Err("bad radius timeout".to_owned());
        }
        if s.retransmit > 0xffff {
            return Err("bad radius retransmit".to_owned());
        }
        radius.push(
            dot1x::Radius {
                ip: s.ip.clone(),
                key: s.key.clone(),
                port: s.port as u16,
                timeout: s.timeout_secs as u16,
                retransmit: s.retransmit as u16,
            },
        );
        i = i + 1;
    }
    assert(radius.deep_view() =~= Seq::new(
        req.radius_servers@.len(),
        |i: int| radius_of(req.radius_servers@[i]),
    ));
    Ok(
        dot1x::Config {
            radius,
            reauth_interval: req.reauth_interval,
            ports: OrdMap::of_names(&req.ports),
        },
    )
}

// ------------------------------------------- DHCP snooping, ARP inspection

#[derive(Debug)]
pub struct StaticRequest {
    pub mac: String,
    pub address: String,
    pub vlan: u32,
    pub interface: String,
}

#[derive(Debug)]
pub struct SnoopSecRequest {
    pub dhcp_vlans: Vec<u32>,
    pub arp_vlans: Vec<u32>,
    pub validate: Vec<String>,
    pub dhcp_trusted: Vec<String>,
    pub arp_trusted: Vec<String>,
    pub static_bindings: Vec<StaticRequest>,
}

/// Why a VLAN number is refused.
pub open spec fn vlan_error(n: u32) -> Option<Seq<char>> {
    refuse(!is_vlan(n), "bad VLAN "@ + shown(n))
}

/// Why the first bad VLAN, from the `n`th on, is refused.
pub open spec fn vlans_error(vlans: Seq<u32>, n: int) -> Option<Seq<char>>
    decreases vlans.len() - n,
{
    if n >= vlans.len() {
        None
    } else {
        first_of(vlan_error(vlans[n]), vlans_error(vlans, n + 1))
    }
}

/// The check that a word stands for.
pub open spec fn check_of(word: Seq<char>) -> Option<Validate> {
    if word == "src-mac"@ {
        Some(Validate::SrcMac)
    } else if word == "dst-mac"@ {
        Some(Validate::DstMac)
    } else if word == "ip"@ {
        Some(Validate::Ip)
    } else {
        None
    }
}

/// Why the first bad check, from the `n`th on, is refused.
pub open spec fn checks_error(words: Seq<Seq<char>>, n: int) -> Option<Seq<char>>
    decreases words.len() - n,
{
    if n >= words.len() {
        None
    } else {
        first_of(
            refuse(
                check_of(words[n]) is None,
                "bad validate "@ + crate::text::quoted_text(words[n]),
            ),
            checks_error(words, n + 1),
        )
    }
}

/// Why a static binding is refused.
pub open spec fn static_error(b: StaticRequest) -> Option<Seq<char>> {
    first_of(
        refuse(
            crate::ip::v4_value(b.address@) is None,
            "bad address "@ + crate::text::quoted_text(b.address@),
        ),
        vlan_error(b.vlan),
    )
}

/// Why the first bad binding, from the `n`th on, is refused.
pub open spec fn statics_error(list: Seq<StaticRequest>, n: int) -> Option<Seq<char>>
    decreases list.len() - n,
{
    if n >= list.len() {
        None
    } else {
        first_of(static_error(list[n]), statics_error(list, n + 1))
    }
}

/// Why a request of the security engines is refused.
pub open spec fn snoop_sec_error(req: SnoopSecRequest) -> Option<Seq<char>> {
    first_of(
        vlans_error(req.dhcp_vlans@, 0),
        first_of(
            vlans_error(req.arp_vlans@, 0),
            first_of(
                checks_error(req.validate.deep_view(), 0),
                statics_error(req.static_bindings@, 0),
            ),
        ),
    )
}

/// Is a VLAN one of the first `n`?
pub open spec fn lists_vlan(vlans: Seq<u32>, n: int, id: u16) -> bool {
    exists|i: int| 0 <= i < n && #[trigger] vlans[i] == id
}

/// Is a check one of the first `n`?
pub open spec fn lists_check(words: Seq<Seq<char>>, n: int, check: Validate) -> bool {
    exists|i: int| 0 <= i < n && check_of(#[trigger] words[i]) == Some(check)
}

/// The last of the first `n` that binds a MAC in a VLAN.
pub open spec fn last_static(
    list: Seq<StaticRequest>,
    n: int,
    mac: Seq<char>,
    vlan: u16,
) -> Option<int>
    decreases n,
{
    if n <= 0 {
        None
    } else if list[n - 1].mac@ == mac && list[n - 1].vlan == vlan {
        Some(n - 1)
    } else {
        last_static(list, n - 1, mac, vlan)
    }
}

/// The table binds a MAC in a VLAN as the last request about it asks.
pub open spec fn binds(
    m: Map<(Seq<char>, u16), snoopsec::StaticBinding>,
    list: Seq<StaticRequest>,
    n: int,
    mac: Seq<char>,
    vlan: u16,
) -> bool {
    match last_static(list, n, mac, vlan) {
        Some(i) => m.dom().contains((mac, vlan)) && Some(m[(mac, vlan)].ip)
            == crate::ip::v4_value(list[i].address@) && m[(mac, vlan)].interface@
            == list[i].interface@,
        None => !m.dom().contains((mac, vlan)),
    }
}

fn bad_vlan(n: u32) -> (r: String)
    ensures
        r@ == "bad VLAN "@ + shown(n),
{
    cat2("bad VLAN ", &decimal(n as u64))
}

fn vlan_set(vlans: &Vec<u32>) -> (r: Result<snoopsec::VlanSet, String>)
    ensures
        match r {
            Ok(set) => {
                &&& vlans_error(vlans@, 0) is None
                &&& set.wf()
                &&& forall|id: u16| #[trigger]
                    set@.dom().contains(id) <==> lists_vlan(vlans@, vlans@.len() as int, id)
            },
            Err(e) => vlans_error(vlans@, 0) == Some(e@),
        },
{
    let mut set: snoopsec::VlanSet = OrdMap::new();
    let mut i: usize = 0;
    while i < vlans.len()
        invariant
            i <= vlans@.len(),
            set.wf(),
            vlans_error(vlans@, 0) == vlans_error(vlans@, i as int),
            forall|id: u16| #[trigger]
                set@.dom().contains(id) <==> lists_vlan(vlans@, i as int, id),
        decreases vlans@.len() - i,
    {
        let n: u32 = vlans[i];
        if !(1 <= n && n <= 4094) {
            return Err(bad_vlan(n));
        }
        let ghost had = set@.dom();
        set.insert(n as u16, ());
        proof {
            assert forall|id: u16| #[trigger]
                set@.dom().contains(id) <==> lists_vlan(vlans@, i + 1, id) by {
                assert(set@.dom().contains(id) <==> had.contains(id) || id == vlans@[i as int]);
                if lists_vlan(vlans@, i as int, id) {
                    let j = choose|j: int| 0 <= j < i && #[trigger] vlans@[j] == id;
                    assert(vlans@[j] == id);
                }
            }
        }
        i = i + 1;
    }
    Ok(set)
}

fn check_set(list: &Vec<String>) -> (r: Result<OrdMap<Validate, ()>, String>)
    ensures
        match r {
            Ok(set) => {
                &&& checks_error(list.deep_view(), 0) is None
                &&& set.wf()
                &&& forall|c: Validate| #[trigger]
                    set@.dom().contains(c) <==> lists_check(
                        list.deep_view(),
                        list@.len() as int,
                        c,
                    )
            },
            Err(e) => checks_error(list.deep_view(), 0) == Some(e@),
        },
{
    let ghost all = list.deep_view();
    let mut set: OrdMap<Validate, ()> = OrdMap::new();
    let mut i: usize = 0;
    assert(all.len() == list@.len());
    while i < list.len()
        invariant
            i <= list@.len(),
            all == list.deep_view(),
            all.len() == list@.len(),
            set.wf(),
            checks_error(all, 0) == checks_error(all, i as int),
            forall|c: Validate| #[trigger]
                set@.dom().contains(c) <==> lists_check(all, i as int, c),
        decreases list@.len() - i,
    {
        assert(all[i as int] == list@[i as int]@);
        let check = if same_text(&list[i], "src-mac") {
            Validate::SrcMac
        } else if same_text(&list[i], "dst-mac") {
            Validate::DstMac
        } else if same_text(&list[i], "ip") {
            Validate::Ip
        } else {
            return Err(cat2("bad validate ", &quoted(&list[i])));
        };
        let ghost had = set@.dom();
        set.insert(check, ());
        proof {
            assert forall|c: Validate| #[trigger]
                set@.dom().contains(c) <==> lists_check(all, i + 1, c) by {
                assert(set@.dom().contains(c) <==> had.contains(c) || c == check);
                if lists_check(all, i as int, c) {
                    let j = choose|j: int| 0 <= j < i && check_of(#[trigger] all[j]) == Some(c);
                    assert(check_of(all[j]) == Some(c));
                }
                if c == check {
                    assert(check_of(all[i as int]) == Some(c));
                }
            }
        }
        i = i + 1;
    }
    Ok(set)
}

fn static_map(list: &Vec<StaticRequest>) -> (r: Result<
    OrdMap<(String, u16), snoopsec::StaticBinding>,
    String,
>)
    ensures
        match r {
            Ok(m) => {
                &&& statics_error(list@, 0) is None
                &&& m.wf()
                &&& forall|mac: Seq<char>, vlan: u16| #[trigger]
                    binds(m@, list@, list@.len() as int, mac, vlan)
            },
            Err(e) => statics_error(list@, 0) == Some(e@),
        },
{
    let mut m: OrdMap<(String, u16), snoopsec::StaticBinding> = OrdMap::new();
    let mut i: usize = 0;
    while i < list.len()
        invariant
            i <= list@.len(),
            m.wf(),
            statics_error(list@, 0) == statics_error(list@, i as int),
            forall|mac: Seq<char>, vlan: u16| #[trigger]
                binds(m@, list@, i as int, mac, vlan),
        decreases list@.len() - i,
    {
        let b = &list[i];
        let ip = match parse_v4(&b.address) {
            Some(ip) => ip,
            None => {
                return Err(cat2("bad address ", &quoted(&b.address)));
            },
        };
        if !(1 <= b.vlan && b.vlan <= 4094) {
            return Err(bad_vlan(b.vlan));
        }
        let ghost had = m@;
        m.insert(
            (b.mac.clone(), b.vlan as u16),
            snoopsec::StaticBinding { ip, interface: b.interface.clone() },
        );
        proof {
            assert forall|mac: Seq<char>, vlan: u16| #[trigger]
                binds(m@, list@, i + 1, mac, vlan) by {
                assert(binds(had, list@, i as int, mac, vlan));
            }
        }
        i = i + 1;
    }
    Ok(m)
}

/// The security engines' configuration of a request.
pub fn snoop_sec_config(req: &SnoopSecRequest) -> (r: Result<snoopsec::Config, String>)
    ensures
        match r {
            Ok(c) => {
                &&& snoop_sec_error(*req) is None
                &&& c.wf()
                &&& forall|id: u16| #[trigger]
                    c.dhcp_vlans@.dom().contains(id) <==> lists_vlan(
                        req.dhcp_vlans@,
                        req.dhcp_vlans@.len() as int,
                        id,
                    )
                &&& forall|id: u16| #[trigger]
                    c.arp_vlans@.dom().contains(id) <==> lists_vlan(
                        req.arp_vlans@,
                        req.arp_vlans@.len() as int,
                        id,
                    )
                &&& forall|check: Validate| #[trigger]
                    c.validate@.dom().contains(check) <==> lists_check(
                        req.validate.deep_view(),
                        req.validate@.len() as int,
                        check,
                    )
                &&& c.dhcp_trusted@.dom() == crate::ordmap::name_set(req.dhcp_trusted.deep_view())
                &&& c.arp_trusted@.dom() == crate::ordmap::name_set(req.arp_trusted.deep_view())
                &&& forall|mac: Seq<char>, vlan: u16| #[trigger]
                    binds(
                        c.statics@,
                        req.static_bindings@,
                        req.static_bindings@.len() as int,
                        mac,
                        vlan,
                    )
                &&& c.relay.entries@.len() == 0
            },
            Err(e) => snoop_sec_error(*req) == Some(e@),
        },
{
    let dhcp_trusted: TextSet = OrdMap::of_names(&req.dhcp_trusted);
    let arp_trusted: TextSet = OrdMap::of_names(&req.arp_trusted);
    let dhcp_vlans = match vlan_set(&req.dhcp_vlans) {
        Ok(set) => set,
        Err(e) => {
            return Err(e);
        },
    };
    let arp_vlans = match vlan_set(&req.arp_vlans) {
        Ok(set) => set,
        Err(e) => {
            return Err(e);
        },
    };
    let validate = match check_set(&req.validate) {
        Ok(set) => set,
        Err(e) => {
            return Err(e);
        },
    };
    let statics = match static_map(&req.static_bindings) {
        Ok(m) => m,
        Err(e) => {
            return Err(e);
        },
    };
    Ok(
        snoopsec::Config {
            dhcp_vlans,
            arp_vlans,
            validate,
            dhcp_trusted,
            arp_trusted,
            statics,
            relay: OrdMap::new(),
        },
    )
}

// ---------------------------------------------------------------- retrying

/// How one attempt to push an update to syncd came out.
#[derive(Debug, Clone, Copy, PartialEq, Eq, Structural)]
pub enum Attempt {
    /// syncd took it.
    Taken,
    /// syncd says that the object no longer exists.
    Gone,
    /// syncd refused it otherwise, or could not be reached.
    Failed,
}

/// What follows an attempt.
#[derive(Debug, Clone, Copy, PartialEq, Eq, Structural)]
pub enum Next {
    /// On to the next update.
    Done,
    /// On to the next update, with a warning that this one was not pushed.
    GiveUp,
    /// Try again in a second.
    Retry,
}

/// The attempts that the switch base MAC gets.
pub const MAC_ATTEMPTS: u32 = 10;

/// What follows an attempt to learn the switch base MAC.
#[derive(Debug, Clone, Copy, PartialEq, Eq)]
pub enum MacNext {
    /// syncd names it.
    Known([u8; 6]),
    /// Try again in a second.
    Retry,
    /// A locally administered one has to do.
    Local([u8; 6]),
}

/// What follows the `n`th attempt (from 1) to learn the switch base MAC. A
/// placeholder would churn partners once syncd is up, so syncd gets a while.
pub fn after_mac_attempt(n: u32, found: Option<[u8; 6]>) -> (r: MacNext)
    ensures
        match found {
            Some(mac) => r == MacNext::Known(mac),
            None => r == (if n < MAC_ATTEMPTS {
                MacNext::Retry
            } else {
                MacNext::Local(crate::topology::LOCAL_MAC)
            }),
        },
{
    match found {
        Some(mac) => MacNext::Known(mac),
        None => if n < MAC_ATTEMPTS {
            MacNext::Retry
        } else {
            MacNext::Local(crate::topology::LOCAL_MAC)
        },
    }
}

/// The attempts an update gets.
pub const PUSH_ATTEMPTS: u32 = 5;

/// What follows the `n`th attempt (from 1). An object that no longer exists is
/// not worth retrying; mgmtd owns its lifecycle.
pub fn after_attempt(n: u32, attempt: Attempt) -> (r: Next)
    ensures
        attempt != Attempt::Failed ==> r == Next::Done,
        attempt == Attempt::Failed && n >= PUSH_ATTEMPTS ==> r == Next::GiveUp,
        attempt == Attempt::Failed && n < PUSH_ATTEMPTS ==> r == Next::Retry,
{
    if attempt != Attempt::Failed {
        Next::Done
    } else if n >= PUSH_ATTEMPTS {
        Next::GiveUp
    } else {
        Next::Retry
    }
}

} // verus!
