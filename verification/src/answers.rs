//! The state queries: the engines' snapshots as the clients are shown them.

use vstd::prelude::*;

use crate::clock::elapsed;
use crate::dot1x;
use crate::lacp;
use crate::lldp;
use crate::mac::mac_text;
use crate::ordmap::OrdMap;
use crate::snoopsec;
use crate::snoopsec::Validate;
use crate::stp;
use crate::text::{cat2, cat3, cat4, copy_texts, decimal, same_text};

verus! {

/// `32768,2c:dd:e9:4a:1b:00`.
pub open spec fn system_id_text(priority: u16, mac: Seq<u8>) -> Seq<char> {
    crate::text::decimal_text(priority as nat) + ","@ + crate::mac::mac_chars(mac)
}

/// `32768,2c:dd:e9:4a:1b:00`.
pub fn system_id(priority: u16, mac: [u8; 6]) -> (r: String)
    ensures
        r@ == system_id_text(priority, mac@),
{
    cat3(&decimal(priority as u64), ",", &mac_text(mac.as_slice()))
}

/// One line on what runs: the number of LAGs, and the spanning-tree mode.
pub fn status_detail(lags: usize, mode: stp::Mode) -> (r: String)
    ensures
        r@ == "lacp engine: "@ + crate::text::decimal_text(lags as nat) + " lag(s); stp mode "@ + (
        match mode {
            stp::Mode::Mstp => "mstp"@,
            stp::Mode::Rstp => "rstp"@,
            stp::Mode::Off => "none"@,
        }),
{
    cat4("lacp engine: ", &decimal(lags as u64), " lag(s); stp mode ", mode.word())
}

fn text_or_empty(v: &Option<String>) -> (r: String)
    ensures
        r@ == or_nothing(crate::text::option_text(*v)),
{
    match v {
        Some(s) => s.clone(),
        None => {
            let r = String::new();
            assert(r@ =~= Seq::empty());
            r
        },
    }
}

/// A text, or nothing.
pub open spec fn or_nothing(v: Option<Seq<char>>) -> Seq<char> {
    match v {
        Some(s) => s,
        None => Seq::empty(),
    }
}

/// Does a filter let a port through? An empty one lets every port through.
pub open spec fn passes(filter: Seq<char>, port: Seq<char>) -> bool {
    filter.len() == 0 || port == filter
}

fn let_through(filter: &str, port: &str) -> (r: bool)
    ensures
        r == passes(filter@, port@),
{
    filter.is_empty() || same_text(port, filter)
}

// ------------------------------------------------------------------- LACP

#[derive(Debug)]
pub struct MemberLacpState {
    pub port: String,
    pub status: String,
    pub rate_fast: bool,
    pub actor_state: u32,
    pub partner_state: u32,
    /// Empty while there is no partner.
    pub partner_system: String,
    pub partner_port: u32,
    pub partner_key: u32,
    pub partner_priority: u32,
    pub pdus_rx: u64,
    pub pdus_tx: u64,
    pub churn: u32,
}

#[derive(Debug)]
pub struct LagLacpState {
    pub group: u32,
    pub lacp: bool,
    pub active_mode: bool,
    pub bundled: u32,
    pub total: u32,
    pub up: bool,
    pub min_links: u32,
    /// `static`, `individual` or empty.
    pub fallback_mode: String,
    pub fallback_timeout_secs: u32,
    pub fallback_active: bool,
    pub members: Vec<MemberLacpState>,
}

#[derive(Debug)]
pub struct LacpState {
    pub system_id: String,
    pub lags: Vec<LagLacpState>,
}

/// A row shows a member.
pub open spec fn shows_member(r: MemberLacpState, m: lacp::MemberSnapshot) -> bool {
    &&& r.port@ == m.port@
    &&& r.status@ == m.status@
    &&& r.rate_fast == m.rate_fast
    &&& r.actor_state == m.actor_state
    &&& r.partner_state == m.partner_state
    &&& r.partner_system@ == (match m.partner_system {
        Some((priority, mac)) => system_id_text(priority, mac@),
        None => Seq::empty(),
    })
    &&& r.partner_port == m.partner_port
    &&& r.partner_key == m.partner_key
    &&& r.partner_priority == m.partner_priority
    &&& r.pdus_rx == m.pdus_rx
    &&& r.pdus_tx == m.pdus_tx
    &&& r.churn == m.churn
}

/// The word for a fallback.
pub open spec fn fallback_word(f: Option<lacp::Fallback>) -> Seq<char> {
    match f {
        Some(lacp::Fallback::Static) => "static"@,
        Some(lacp::Fallback::Individual) => "individual"@,
        None => ""@,
    }
}

/// A row shows a group.
pub open spec fn shows_lag(r: LagLacpState, l: lacp::LagSnapshot) -> bool {
    &&& r.group == l.group
    &&& r.lacp == l.lacp
    &&& r.active_mode == l.active_mode
    &&& r.bundled == l.bundled
    &&& r.total == l.total
    &&& r.up == l.up
    &&& r.min_links == l.min_links
    &&& r.fallback_mode@ == fallback_word(l.fallback)
    &&& r.fallback_timeout_secs == (l.fallback_timeout / 1000) % 0x1_0000_0000
    &&& r.fallback_active == l.fallback_active
    &&& r.members@.len() == l.members@.len()
    &&& forall|i: int|
        #![trigger r.members@[i]]
        0 <= i < r.members@.len() ==> shows_member(r.members@[i], l.members@[i])
}

fn member_state(m: &lacp::MemberSnapshot) -> (r: MemberLacpState)
    ensures
        shows_member(r, *m),
{
    let partner_system = match m.partner_system {
        Some((priority, mac)) => system_id(priority, mac),
        None => {
            let r = String::new();
            assert(r@ =~= Seq::empty());
            r
        },
    };
    MemberLacpState {
        port: m.port.clone(),
        status: m.status.to_owned(),
        rate_fast: m.rate_fast,
        actor_state: m.actor_state as u32,
        partner_state: m.partner_state as u32,
        partner_system,
        partner_port: m.partner_port as u32,
        partner_key: m.partner_key as u32,
        partner_priority: m.partner_priority as u32,
        pdus_rx: m.pdus_rx,
        pdus_tx: m.pdus_tx,
        churn: m.churn,
    }
}

fn lag_state(l: &lacp::LagSnapshot) -> (r: LagLacpState)
    ensures
        shows_lag(r, *l),
{
    let mut members: Vec<MemberLacpState> = Vec::new();
    let mut i: usize = 0;
    while i < l.members.len()
        invariant
            i <= l.members@.len(),
            members@.len() == i,
            forall|j: int|
                #![trigger members@[j]]
                0 <= j < i ==> shows_member(members@[j], l.members@[j]),
        decreases l.members@.len() - i,
    {
        members.push(member_state(&l.members[i]));
        i = i + 1;
    }
    let word = match l.fallback {
        Some(lacp::Fallback::Static) => "static",
        Some(lacp::Fallback::Individual) => "individual",
        None => "",
    };
    LagLacpState {
        group: l.group as u32,
        lacp: l.lacp,
        active_mode: l.active_mode,
        bundled: l.bundled,
        total: l.total,
        up: l.up,
        min_links: l.min_links as u32,
        fallback_mode: word.to_owned(),
        fallback_timeout_secs: (l.fallback_timeout / 1000 % 0x1_0000_0000) as u32,
        fallback_active: l.fallback_active,
        members,
    }
}

/// What `show lacp` answers.
pub fn lacp_state(s: &lacp::Snapshot) -> (r: LacpState)
    ensures
        r.system_id@ == system_id_text(s.system_priority, s.system_mac@),
        r.lags@.len() == s.lags@.len(),
        forall|i: int|
            #![trigger r.lags@[i]]
            0 <= i < r.lags@.len() ==> shows_lag(r.lags@[i], s.lags@[i]),
{
    let mut lags: Vec<LagLacpState> = Vec::new();
    let mut i: usize = 0;
    while i < s.lags.len()
        invariant
            i <= s.lags@.len(),
            lags@.len() == i,
            forall|j: int|
                #![trigger lags@[j]]
                0 <= j < i ==> shows_lag(lags@[j], s.lags@[j]),
        decreases s.lags@.len() - i,
    {
        lags.push(lag_state(&s.lags[i]));
        i = i + 1;
    }
    LacpState { system_id: system_id(s.system_priority, s.system_mac), lags }
}

// -------------------------------------------------------------------- STP

#[derive(Debug)]
pub struct StpPortInfo {
    pub port: String,
    pub role: String,
    pub state: String,
    pub cost: u32,
    pub priority: u32,
    pub portfast: bool,
    pub bpduguard: bool,
    pub bpdus_rx: u64,
    pub bpdus_tx: u64,
    pub errdisabled: bool,
}

#[derive(Debug)]
pub struct StpState {
    pub mode: String,
    pub bridge_priority: u32,
    pub bridge_mac: String,
    pub root_priority: u32,
    pub root_mac: String,
    pub is_root: bool,
    pub root_cost: u32,
    /// Empty while the bridge is the root.
    pub root_port: String,
    pub hello_time: u32,
    pub max_age: u32,
    pub forward_time: u32,
    pub mst_name: String,
    pub mst_revision: u32,
    /// MST instance and its VLANs, in instance order.
    pub instances: Vec<(u32, Vec<u32>)>,
    pub topology_changes: u32,
    pub seconds_since_tc: Option<u64>,
    pub last_tc_port: String,
    pub ports: Vec<StpPortInfo>,
}

/// The word for a port's role.
pub open spec fn role_word(role: stp::Role) -> Seq<char> {
    match role {
        stp::Role::Designated => "designated"@,
        stp::Role::Root => "root"@,
        stp::Role::Alternate => "alternate"@,
        stp::Role::Disabled => "disabled"@,
    }
}

/// The word for a port's state.
pub open spec fn state_word(state: stp::PortState) -> Seq<char> {
    match state {
        stp::PortState::Discarding => "discarding"@,
        stp::PortState::Learning => "learning"@,
        stp::PortState::Forwarding => "forwarding"@,
    }
}

/// The word for a mode.
pub open spec fn mode_word(mode: stp::Mode) -> Seq<char> {
    match mode {
        stp::Mode::Mstp => "mstp"@,
        stp::Mode::Rstp => "rstp"@,
        stp::Mode::Off => "none"@,
    }
}

/// A row shows a port.
pub open spec fn shows_stp_port(r: StpPortInfo, p: stp::PortSnapshot) -> bool {
    &&& r.port@ == p.port@
    &&& r.role@ == role_word(p.role)
    &&& r.state@ == state_word(p.state)
    &&& r.cost == p.cost
    &&& r.priority == p.priority
    &&& r.portfast == p.portfast
    &&& r.bpduguard == p.bpduguard
    &&& r.bpdus_rx == p.bpdus_rx
    &&& r.bpdus_tx == p.bpdus_tx
    &&& r.errdisabled == p.errdisabled
}

/// VLAN numbers in another width.
pub open spec fn widened(vlans: Seq<u16>) -> Seq<u32> {
    Seq::new(vlans.len(), |i: int| vlans[i] as u32)
}

fn widen(vlans: &Vec<u16>) -> (r: Vec<u32>)
    ensures
        r@ == widened(vlans@),
{
    let mut r: Vec<u32> = Vec::new();
    let mut i: usize = 0;
    while i < vlans.len()
        invariant
            i <= vlans@.len(),
            r@.len() == i,
            forall|j: int| 0 <= j < i ==> #[trigger] r@[j] == vlans@[j] as u32,
        decreases vlans@.len() - i,
    {
        r.push(vlans[i] as u32);
        i = i + 1;
    }
    assert(r@ =~= widened(vlans@));
    r
}

/// The rows show the instances.
pub open spec fn shows_instances(
    r: Seq<(u32, Vec<u32>)>,
    entries: Seq<(u8, Vec<u16>)>,
) -> bool {
    r.len() == entries.len() && forall|i: int|
        #![trigger r[i]]
        0 <= i < r.len() ==> r[i].0 == entries[i].0 && r[i].1@ == widened(entries[i].1@)
}

/// What `show spanning-tree` answers.
pub fn stp_state(s: &stp::Snapshot) -> (r: StpState)
    ensures
        r.mode@ == mode_word(s.mode),
        r.bridge_priority == s.bridge.priority,
        r.bridge_mac@ == crate::mac::mac_chars(s.bridge.mac@),
        r.root_priority == s.root.priority,
        r.root_mac@ == crate::mac::mac_chars(s.root.mac@),
        r.is_root == (s.root.priority == s.bridge.priority && s.root.mac@ == s.bridge.mac@),
        r.root_cost == s.root_cost,
        r.root_port@ == or_nothing(crate::text::option_text(s.root_port)),
        r.hello_time == s.hello_time,
        r.max_age == s.max_age,
        r.forward_time == s.forward_time,
        r.mst_name@ == s.mst_name@,
        r.mst_revision == s.mst_revision,
        shows_instances(r.instances@, s.instances.entries@),
        r.topology_changes == s.topology_changes,
        r.seconds_since_tc == s.seconds_since_tc,
        r.last_tc_port@ == or_nothing(crate::text::option_text(s.last_tc_port)),
        r.ports@.len() == s.ports@.len(),
        forall|i: int|
            #![trigger r.ports@[i]]
            0 <= i < r.ports@.len() ==> shows_stp_port(r.ports@[i], s.ports@[i]),
{
    let mut instances: Vec<(u32, Vec<u32>)> = Vec::new();
    let mut i: usize = 0;
    while i < s.instances.entries.len()
        invariant
            i <= s.instances.entries@.len(),
            instances@.len() == i,
            forall|j: int|
                #![trigger instances@[j]]
                0 <= j < i ==> instances@[j].0 == s.instances.entries@[j].0 && instances@[j].1@
                    == widened(s.instances.entries@[j].1@),
        decreases s.instances.entries@.len() - i,
    {
        let entry = &s.instances.entries[i];
        instances.push((entry.0 as u32, widen(&entry.1)));
        i = i + 1;
    }
    let mut ports: Vec<StpPortInfo> = Vec::new();
    let mut k: usize = 0;
    while k < s.ports.len()
        invariant
            k <= s.ports@.len(),
            ports@.len() == k,
            forall|j: int|
                #![trigger ports@[j]]
                0 <= j < k ==> shows_stp_port(ports@[j], s.ports@[j]),
        decreases s.ports@.len() - k,
    {
        let p = &s.ports[k];
        ports.push(
            StpPortInfo {
                port: p.port.clone(),
                role: p.role.word().to_owned(),
                state: p.state.word().to_owned(),
                cost: p.cost,
                priority: p.priority as u32,
                portfast: p.portfast,
                bpduguard: p.bpduguard,
                bpdus_rx: p.bpdus_rx,
                bpdus_tx: p.bpdus_tx,
                errdisabled: p.errdisabled,
            },
        );
        k = k + 1;
    }
    StpState {
        mode: s.mode.word().to_owned(),
        bridge_priority: s.bridge.priority as u32,
        bridge_mac: mac_text(s.bridge.mac.as_slice()),
        root_priority: s.root.priority as u32,
        root_mac: mac_text(s.root.mac.as_slice()),
        is_root: s.root.priority == s.bridge.priority && crate::bytes::same_mac(
            s.root.mac,
            s.bridge.mac,
        ),
        root_cost: s.root_cost,
        root_port: text_or_empty(&s.root_port),
        hello_time: s.hello_time as u32,
        max_age: s.max_age as u32,
        forward_time: s.forward_time as u32,
        mst_name: s.mst_name.clone(),
        mst_revision: s.mst_revision as u32,
        instances,
        topology_changes: s.topology_changes,
        seconds_since_tc: s.seconds_since_tc,
        last_tc_port: text_or_empty(&s.last_tc_port),
        ports,
    }
}

// ------------------------------------------- DHCP snooping, ARP inspection

#[derive(Debug)]
pub struct SnoopBindingState {
    pub mac: String,
    pub address: String,
    pub lease_secs: Option<u64>,
    pub is_static: bool,
    pub vlan: u32,
    pub interface: String,
}

#[derive(Debug)]
pub struct SnoopSecState {
    pub dhcp_vlans: Vec<u32>,
    pub dhcp_trusted: Vec<String>,
    pub bindings: Vec<SnoopBindingState>,
    pub dhcp_stats: Vec<(u32, snoopsec::DhcpVlanStats)>,
    pub untrusted_server_drops: u64,
    pub arp_vlans: Vec<u32>,
    pub validate: Vec<String>,
    pub arp_trusted: Vec<String>,
    pub arp_stats: Vec<(u32, snoopsec::DaiVlanStats)>,
}

/// The word for a check.
pub open spec fn check_word(v: Validate) -> Seq<char> {
    match v {
        Validate::SrcMac => "src-mac"@,
        Validate::DstMac => "dst-mac"@,
        Validate::Ip => "ip"@,
    }
}

/// The words for some checks.
pub open spec fn check_words(list: Seq<Validate>) -> Seq<Seq<char>> {
    Seq::new(list.len(), |i: int| check_word(list[i]))
}

/// A row shows a binding; one without a lease is static.
pub open spec fn shows_binding(r: SnoopBindingState, b: snoopsec::BindingSnapshot) -> bool {
    &&& r.mac@ == b.mac@
    &&& r.address@ == crate::ip::v4_text(b.ip)
    &&& r.lease_secs == b.lease_secs
    &&& r.is_static == (b.lease_secs is None)
    &&& r.vlan == b.vlan
    &&& r.interface@ == b.interface@
}

/// The rows of a table of counters, in VLAN order.
pub open spec fn stat_rows<T>(entries: Seq<(u16, T)>) -> Seq<(u32, T)> {
    Seq::new(entries.len(), |i: int| (entries[i].0 as u32, entries[i].1))
}

fn stat_list<T: Copy>(m: &OrdMap<u16, T>) -> (r: Vec<(u32, T)>)
    ensures
        r@ == stat_rows(m.entries@),
{
    let mut r: Vec<(u32, T)> = Vec::new();
    let mut i: usize = 0;
    while i < m.entries.len()
        invariant
            i <= m.entries@.len(),
            r@.len() == i,
            forall|j: int|
                0 <= j < i ==> #[trigger] r@[j] == (m.entries@[j].0 as u32, m.entries@[j].1),
        decreases m.entries@.len() - i,
    {
        r.push((m.entries[i].0 as u32, m.entries[i].1));
        i = i + 1;
    }
    assert(r@ =~= stat_rows(m.entries@));
    r
}

/// What `show ip dhcp snooping` and `show ip arp inspection` answer.
pub fn snoop_sec_state(s: &snoopsec::Snapshot) -> (r: SnoopSecState)
    ensures
        r.dhcp_vlans@ == widened(s.dhcp_vlans@),
        r.dhcp_trusted@ == s.dhcp_trusted@,
        r.bindings@.len() == s.bindings@.len(),
        forall|i: int|
            #![trigger r.bindings@[i]]
            0 <= i < r.bindings@.len() ==> shows_binding(r.bindings@[i], s.bindings@[i]),
        r.dhcp_stats@ == stat_rows(s.dhcp_stats.entries@),
        r.untrusted_server_drops == s.untrusted_server_drops,
        r.arp_vlans@ == widened(s.arp_vlans@),
        r.validate.deep_view() == check_words(s.validate@),
        r.arp_trusted@ == s.arp_trusted@,
        r.arp_stats@ == stat_rows(s.arp_stats.entries@),
{
    let mut bindings: Vec<SnoopBindingState> = Vec::new();
    let mut i: usize = 0;
    while i < s.bindings.len()
        invariant
            i <= s.bindings@.len(),
            bindings@.len() == i,
            forall|j: int|
                #![trigger bindings@[j]]
                0 <= j < i ==> shows_binding(bindings@[j], s.bindings@[j]),
        decreases s.bindings@.len() - i,
    {
        let b = &s.bindings[i];
        bindings.push(
            SnoopBindingState {
                mac: b.mac.clone(),
                address: b.ip.shown(),
                lease_secs: b.lease_secs,
                is_static: b.lease_secs.is_none(),
                vlan: b.vlan as u32,
                interface: b.interface.clone(),
            },
        );
        i = i + 1;
    }
    let mut validate: Vec<String> = Vec::new();
    let mut k: usize = 0;
    while k < s.validate.len()
        invariant
            k <= s.validate@.len(),
            validate@.len() == k,
            forall|j: int| 0 <= j < k ==> (#[trigger] validate@[j])@ == check_word(s.validate@[j]),
        decreases s.validate@.len() - k,
    {
        let word = match s.validate[k] {
            Validate::SrcMac => "src-mac",
            Validate::DstMac => "dst-mac",
            Validate::Ip => "ip",
        };
        validate.push(word.to_owned());
        k = k + 1;
    }
    assert(validate.deep_view() =~= check_words(s.validate@));
    SnoopSecState {
        dhcp_vlans: widen(&s.dhcp_vlans),
        dhcp_trusted: copy_texts(&s.dhcp_trusted),
        bindings,
        dhcp_stats: stat_list(&s.dhcp_stats),
        untrusted_server_drops: s.untrusted_server_drops,
        arp_vlans: widen(&s.arp_vlans),
        validate,
        arp_trusted: copy_texts(&s.arp_trusted),
        arp_stats: stat_list(&s.arp_stats),
    }
}

// ----------------------------------------------------------------- 802.1X

#[derive(Debug)]
pub struct Dot1xPortState {
    pub port: String,
    /// `authorized` or `unauthorized`.
    pub status: String,
    pub supplicant_mac: String,
    pub last_auth_secs_ago: Option<u64>,
    pub failures: u32,
}

#[derive(Debug)]
pub struct Dot1xState {
    /// `address:port` of each server.
    pub radius_servers: Vec<String>,
    pub reauth_interval: u32,
    pub ports: Vec<Dot1xPortState>,
}

/// A row shows a port.
pub open spec fn shows_dot1x_port(r: Dot1xPortState, p: dot1x::PortSnapshot, now: u64) -> bool {
    &&& r.port@ == p.port@
    &&& r.status@ == (if p.authorized {
        "authorized"@
    } else {
        "unauthorized"@
    })
    &&& r.supplicant_mac@ == or_nothing(crate::text::option_text(p.supplicant))
    &&& r.last_auth_secs_ago == (match p.last_auth {
        Some(t) => Some((crate::clock::since(now, t) / 1000) as u64),
        None => None,
    })
    &&& r.failures == p.failures
}

/// The indexes of the ports, among the first `n`, that a filter lets through.
pub open spec fn dot1x_rows(
    ports: Seq<dot1x::PortSnapshot>,
    filter: Seq<char>,
    n: int,
) -> Seq<int>
    decreases n,
{
    if n <= 0 {
        Seq::empty()
    } else if passes(filter, ports[n - 1].port@) {
        dot1x_rows(ports, filter, n - 1).push(n - 1)
    } else {
        dot1x_rows(ports, filter, n - 1)
    }
}

/// `address:port` of each server.
pub open spec fn server_texts(servers: Seq<dot1x::Radius>) -> Seq<Seq<char>> {
    Seq::new(
        servers.len(),
        |i: int| servers[i].ip@ + ":"@ + crate::text::decimal_text(servers[i].port as nat),
    )
}

/// Does the authenticator run on a port?
pub open spec fn runs_on(ports: Seq<dot1x::PortSnapshot>, n: int, port: Seq<char>) -> bool {
    exists|i: int| 0 <= i < n && (#[trigger] ports[i]).port@ == port
}

fn has_dot1x(ports: &Vec<dot1x::PortSnapshot>, port: &str) -> (r: bool)
    ensures
        r == runs_on(ports@, ports@.len() as int, port@),
{
    let mut i: usize = 0;
    while i < ports.len()
        invariant
            i <= ports@.len(),
            !runs_on(ports@, i as int, port@),
        decreases ports@.len() - i,
    {
        if same_text(&ports[i].port, port) {
            assert(ports@[i as int].port@ == port@);
            return true;
        }
        i = i + 1;
    }
    false
}

/// What `show dot1x` answers; a port that runs no authenticator is not found.
pub fn dot1x_state(s: &dot1x::Snapshot, filter: &str, now: u64) -> (r: Result<Dot1xState, String>)
    ensures
        match r {
            Ok(a) => {
                let rows = dot1x_rows(s.ports@, filter@, s.ports@.len() as int);
                &&& filter@.len() == 0 || runs_on(s.ports@, s.ports@.len() as int, filter@)
                &&& a.radius_servers.deep_view() == server_texts(s.radius@)
                &&& a.reauth_interval == s.reauth_interval
                &&& a.ports@.len() == rows.len()
                &&& forall|i: int|
                    #![trigger a.ports@[i]]
                    0 <= i < rows.len() ==> shows_dot1x_port(a.ports@[i], s.ports@[rows[i]], now)
            },
            Err(e) => {
                &&& filter@.len() > 0
                &&& !runs_on(s.ports@, s.ports@.len() as int, filter@)
                &&& e@ == "dot1x is not enabled on "@ + filter@
            },
        },
{
    if !filter.is_empty() && !has_dot1x(&s.ports, filter) {
        return Err(cat2("dot1x is not enabled on ", filter));
    }
    let mut radius_servers: Vec<String> = Vec::new();
    let mut i: usize = 0;
    while i < s.radius.len()
        invariant
            i <= s.radius@.len(),
            radius_servers@.len() == i,
            forall|j: int|
                0 <= j < i ==> (#[trigger] radius_servers@[j])@ == s.radius@[j].ip@ + ":"@
                    + crate::text::decimal_text(s.radius@[j].port as nat),
        decreases s.radius@.len() - i,
    {
        radius_servers.push(cat3(&s.radius[i].ip, ":", &decimal(s.radius[i].port as u64)));
        i = i + 1;
    }
    assert(radius_servers.deep_view() =~= server_texts(s.radius@));
    let mut ports: Vec<Dot1xPortState> = Vec::new();
    let ghost mut rows = dot1x_rows(s.ports@, filter@, 0);
    let mut k: usize = 0;
    while k < s.ports.len()
        invariant
            k <= s.ports@.len(),
            rows == dot1x_rows(s.ports@, filter@, k as int),
            ports@.len() == rows.len(),
            forall|j: int|
                #![trigger ports@[j]]
                0 <= j < rows.len() ==> shows_dot1x_port(ports@[j], s.ports@[rows[j]], now),
        decreases s.ports@.len() - k,
    {
        let p = &s.ports[k];
        if let_through(filter, &p.port) {
            let status = if p.authorized {
                "authorized"
            } else {
                "unauthorized"
            };
            ports.push(
                Dot1xPortState {
                    port: p.port.clone(),
                    status: status.to_owned(),
                    supplicant_mac: text_or_empty(&p.supplicant),
                    last_auth_secs_ago: match p.last_auth {
                        Some(t) => Some(elapsed(now, t) / 1000),
                        None => None,
                    },
                    failures: p.failures,
                },
            );
        }
        proof {
            rows = dot1x_rows(s.ports@, filter@, k + 1);
        }
        k = k + 1;
    }
    Ok(Dot1xState { radius_servers, reauth_interval: s.reauth_interval, ports })
}

// ------------------------------------------------------------------- LLDP

/// The indexes of the ports, among the first `n`, that a filter lets through.
pub open spec fn lldp_rows(ports: Seq<lldp::PortSnapshot>, filter: Seq<char>, n: int) -> Seq<int>
    decreases n,
{
    if n <= 0 {
        Seq::empty()
    } else if passes(filter, ports[n - 1].port@) {
        lldp_rows(ports, filter, n - 1).push(n - 1)
    } else {
        lldp_rows(ports, filter, n - 1)
    }
}

/// The ports that `show lldp` answers with: one port, or all of them.
pub fn lldp_shown(s: &lldp::Snapshot, filter: &str) -> (r: Vec<usize>)
    ensures
        r@.len() == lldp_rows(s.ports@, filter@, s.ports@.len() as int).len(),
        forall|i: int|
            #![trigger r@[i]]
            0 <= i < r@.len() ==> r@[i] < s.ports@.len() && r@[i] == lldp_rows(
                s.ports@,
                filter@,
                s.ports@.len() as int,
            )[i],
{
    let mut r: Vec<usize> = Vec::new();
    let ghost mut rows = lldp_rows(s.ports@, filter@, 0);
    let mut i: usize = 0;
    while i < s.ports.len()
        invariant
            i <= s.ports@.len(),
            rows == lldp_rows(s.ports@, filter@, i as int),
            r@.len() == rows.len(),
            forall|j: int|
                #![trigger r@[j]]
                0 <= j < rows.len() ==> r@[j] < s.ports@.len() && r@[j] == rows[j],
        decreases s.ports@.len() - i,
    {
        if let_through(filter, &s.ports[i].port) {
            r.push(i);
        }
        proof {
            rows = lldp_rows(s.ports@, filter@, i + 1);
        }
        i = i + 1;
    }
    r
}

} // verus!
