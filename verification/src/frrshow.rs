//! Live FRR protocol state via `vtysh -c '... json'`.
//!
//! orch owns vtysh access — hemlockctl and webd ask orch, keeping the
//! FRR query surface in one place. Reading is defensive: FRR's JSON
//! shape drifts between releases, so absent fields degrade to
//! defaults, and a dead FRR (or a host without it) degrades to a
//! "<protocol> is not running" error.
//!
//! Each query is a short run of show commands. What a command printed comes
//! in as text (nothing, where the command failed); the state goes out as
//! plain values.

use vstd::prelude::*;

use crate::json::{parse_json, Json};
use crate::text::{cat2, cat3, decimal, head, hex, same_text, trim};

verus! {

pub const OSPF_OVERVIEW: &'static str = "show ip ospf json";

pub const OSPF_NEIGHBORS: &'static str = "show ip ospf neighbor json";

pub const OSPF_INTERFACES: &'static str = "show ip ospf interface json";

pub const BGP_SUMMARY: &'static str = "show bgp ipv4 unicast summary json";

pub const BGP_ROUTES: &'static str = "show bgp ipv4 unicast json";

pub const VRRP_GROUPS: &'static str = "show vrrp json";

/// What a show command printed; none where it failed.
pub open spec fn output_text(output: Option<&str>) -> Option<Seq<char>> {
    match output {
        Some(s) => Some(s@),
        None => None,
    }
}

/// The document that a protocol's show command printed, or what went wrong.
pub open spec fn vtysh_document(protocol: Seq<char>, output: Option<Seq<char>>) -> Result<
    Json,
    Seq<char>,
> {
    match output {
        None => Err(protocol + " is not running"@),
        Some(text) => match crate::json::json_document(crate::text::trim_text(text)) {
            Some(v) => Ok(v),
            None => Err("unexpected vtysh output"@),
        },
    }
}

/// Read what one vtysh show command of a protocol printed. A command that
/// failed means that the protocol is not running.
pub fn vtysh_json(protocol: &str, output: Option<&str>) -> (r: Result<Json, String>)
    ensures
        match r {
            Ok(v) => vtysh_document(protocol@, output_text(output)) == Ok::<Json, Seq<char>>(v),
            Err(e) => vtysh_document(protocol@, output_text(output)) == Err::<Json, Seq<char>>(e@),
        },
{
    match output {
        None => Err(cat2(protocol, " is not running")),
        Some(text) => {
            let trimmed = trim(text);
            match parse_json(trimmed.as_str()) {
                Some(v) => Ok(v),
                None => Err("unexpected vtysh output".to_owned()),
            }
        },
    }
}

// ------------------------------------------------------------------ OSPF

#[derive(Debug)]
pub struct OspfArea {
    pub id: String,
    pub interfaces: u32,
}

#[derive(Debug)]
pub struct OspfNeighborState {
    pub router_id: String,
    pub priority: u32,
    pub state: String,
    pub dead_time_msecs: u64,
    pub address: String,
    pub interface: String,
}

#[derive(Debug)]
pub struct OspfInterfaceState {
    pub name: String,
    pub up: bool,
    pub address: String,
    pub area: String,
    pub router_id: String,
    pub network_type: String,
    pub cost: u32,
    pub state: String,
    pub priority: u32,
    pub dr_id: String,
    pub dr_address: String,
    pub hello_interval: u32,
    pub dead_interval: u32,
    pub neighbors: u32,
    pub adjacent: u32,
}

#[derive(Debug)]
pub struct OspfState {
    pub router_id: String,
    pub spf_runs: u32,
    pub areas: Vec<OspfArea>,
    pub neighbors: Vec<OspfNeighborState>,
    pub interfaces: Vec<OspfInterfaceState>,
}

/// An area is what the overview says under its id.
pub open spec fn is_area(a: OspfArea, id: Seq<char>, v: Json) -> bool {
    a.id@ == id && a.interfaces == crate::json::count_member(v, "areaIfTotalCounter"@) as u32
}

pub open spec fn are_areas(areas: Seq<OspfArea>, members: Seq<(String, Json)>) -> bool {
    areas.len() == members.len() && forall|i: int|
        0 <= i < areas.len() ==> is_area(#[trigger] areas[i], members[i].0@, members[i].1)
}

/// A neighbor is what its entry says. "Full/DR" shows as "Full", and the
/// interface name ends where an address follows.
pub open spec fn is_ospf_neighbor(n: OspfNeighborState, router_id: Seq<char>, v: Json) -> bool {
    &&& n.router_id@ == router_id
    &&& n.priority == crate::json::count_member(v, "nbrPriority"@) as u32
    &&& n.state@ == crate::text::head_text(crate::json::text_member(v, "nbrState"@), '/')
    &&& n.dead_time_msecs == crate::json::count_member(v, "routerDeadIntervalTimerDueMsec"@)
    &&& n.address@ == crate::json::text_member(v, "ifaceAddress"@)
    &&& n.interface@ == crate::text::head_text(crate::json::text_member(v, "ifaceName"@), ':')
}

/// The entries of the first `n` routers: one for each item of each list.
pub open spec fn listed(members: Seq<(String, Json)>, n: int) -> Seq<(Seq<char>, Json)>
    decreases n,
{
    if n <= 0 {
        Seq::empty()
    } else {
        listed(members, n - 1) + listed_items(members[n - 1], crate::json::items_of(members[n - 1].1).len() as int)
    }
}

/// The first `k` items of one list, each with the key of the list.
pub open spec fn listed_items(m: (String, Json), k: int) -> Seq<(Seq<char>, Json)> {
    Seq::new(k as nat, |i: int| (m.0@, crate::json::items_of(m.1)[i]))
}

pub open spec fn are_ospf_neighbors(
    ns: Seq<OspfNeighborState>,
    entries: Seq<(Seq<char>, Json)>,
) -> bool {
    ns.len() == entries.len() && forall|i: int|
        0 <= i < ns.len() ==> is_ospf_neighbor(#[trigger] ns[i], entries[i].0, entries[i].1)
}

/// An interface is what its entry says.
pub open spec fn is_ospf_interface(s: OspfInterfaceState, name: Seq<char>, v: Json) -> bool {
    &&& s.name@ == name
    &&& s.up == crate::json::flag_member(v, "ifUp"@, false)
    &&& s.address@ == crate::json::text_member(v, "ipAddress"@) + "/"@ + crate::text::decimal_text(
        crate::json::count_member(v, "ipAddressPrefixlen"@) as nat,
    )
    &&& s.area@ == crate::json::text_member(v, "area"@)
    &&& s.router_id@ == crate::json::text_member(v, "routerId"@)
    &&& s.network_type@ == crate::json::text_member(v, "networkType"@)
    &&& s.cost == crate::json::count_member(v, "cost"@) as u32
    &&& s.state@ == crate::json::text_member(v, "state"@)
    &&& s.priority == crate::json::count_member(v, "priority"@) as u32
    &&& s.dr_id@ == crate::json::text_member(v, "drId"@)
    &&& s.dr_address@ == crate::json::text_member(v, "drAddress"@)
    &&& s.hello_interval == (crate::json::count_member(v, "timerMsecs"@) / 1000) as u32
    &&& s.dead_interval == crate::json::count_member(v, "timerDeadSecs"@) as u32
    &&& s.neighbors == crate::json::count_member(v, "nbrCount"@) as u32
    &&& s.adjacent == crate::json::count_member(v, "nbrAdjacentCount"@) as u32
}

pub open spec fn are_ospf_interfaces(
    ss: Seq<OspfInterfaceState>,
    members: Seq<(String, Json)>,
) -> bool {
    ss.len() == members.len() && forall|i: int|
        0 <= i < ss.len() ==> is_ospf_interface(#[trigger] ss[i], members[i].0@, members[i].1)
}

/// What the overview document says: nothing where OSPF is not running.
pub open spec fn is_ospf_overview(s: OspfState, overview: Json) -> bool {
    &&& crate::json::member(overview, "routerId"@) is Some
    &&& s.router_id@ == crate::json::text_member(overview, "routerId"@)
    &&& s.spf_runs == crate::json::count_member(overview, "spfExecutedCounter"@) as u32
    &&& are_areas(s.areas@, crate::json::members_at(overview, "areas"@))
}

/// The state that the overview document gives, without neighbors and
/// interfaces.
pub fn ospf_overview(overview: &Json) -> (r: Result<OspfState, String>)
    ensures
        match r {
            Ok(s) => is_ospf_overview(s, *overview) && s.neighbors@.len() == 0
                && s.interfaces@.len() == 0,
            Err(e) => crate::json::member(*overview, "routerId"@) is None && e@ == "ospf is not running"@,
        },
{
    if overview.get("routerId").is_none() {
        return Err("ospf is not running".to_owned());
    }
    let mut areas: Vec<OspfArea> = Vec::new();
    match overview.get("areas") {
        Some(Json::Object(members)) => {
            let mut i: usize = 0;
            while i < members.len()
                invariant
                    i <= members@.len(),
                    areas@.len() == i,
                    forall|j: int|
                        0 <= j < i ==> is_area(
                            #[trigger] areas@[j],
                            members@[j].0@,
                            members@[j].1,
                        ),
                decreases members@.len() - i,
            {
                areas.push(
                    OspfArea {
                        id: members[i].0.clone(),
                        interfaces: members[i].1.num("areaIfTotalCounter") as u32,
                    },
                );
                i = i + 1;
            }
        },
        _ => {},
    }
    Ok(
        OspfState {
            router_id: overview.text("routerId"),
            spf_runs: overview.num("spfExecutedCounter") as u32,
            areas,
            neighbors: Vec::new(),
            interfaces: Vec::new(),
        },
    )
}

fn ospf_neighbor(router_id: &str, state: &Json) -> (r: OspfNeighborState)
    ensures
        is_ospf_neighbor(r, router_id@, *state),
{
    let full = state.text("nbrState");
    let iface = state.text("ifaceName");
    OspfNeighborState {
        router_id: router_id.to_owned(),
        priority: state.num("nbrPriority") as u32,
        state: head(full.as_str(), '/'),
        dead_time_msecs: state.num("routerDeadIntervalTimerDueMsec"),
        address: state.text("ifaceAddress"),
        interface: head(iface.as_str(), ':'),
    }
}

/// The neighbors that the neighbor document lists.
pub fn ospf_neighbors(neighbors: &Json) -> (r: Vec<OspfNeighborState>)
    ensures
        are_ospf_neighbors(
            r@,
            listed(
                crate::json::members_at(*neighbors, "neighbors"@),
                crate::json::members_at(*neighbors, "neighbors"@).len() as int,
            ),
        ),
{
    let mut r: Vec<OspfNeighborState> = Vec::new();
    match neighbors.get("neighbors") {
        Some(Json::Object(members)) => {
            let mut i: usize = 0;
            while i < members.len()
                invariant
                    i <= members@.len(),
                    are_ospf_neighbors(r@, listed(members@, i as int)),
                decreases members@.len() - i,
            {
                let ghost front = listed(members@, i as int);
                match &members[i].1 {
                    Json::List(states) => {
                        let mut k: usize = 0;
                        assert(front + listed_items(members@[i as int], 0) =~= front);
                        while k < states.len()
                            invariant
                                i < members@.len(),
                                k <= states@.len(),
                                states@ == crate::json::items_of(members@[i as int].1),
                                are_ospf_neighbors(
                                    r@,
                                    front + listed_items(members@[i as int], k as int),
                                ),
                            decreases states@.len() - k,
                        {
                            let ghost next = front + listed_items(members@[i as int], k + 1);
                            r.push(ospf_neighbor(members[i].0.as_str(), &states[k]));
                            assert(next =~= (front + listed_items(
                                members@[i as int],
                                k as int,
                            )).push((members@[i as int].0@, states@[k as int])));
                            k = k + 1;
                        }
                    },
                    _ => {
                        assert(listed(members@, i + 1) =~= front);
                    },
                }
                i = i + 1;
            }
        },
        _ => {},
    }
    r
}

fn ospf_interface(name: &str, iface: &Json) -> (r: OspfInterfaceState)
    ensures
        is_ospf_interface(r, name@, *iface),
{
    let prefix = decimal(iface.num("ipAddressPrefixlen"));
    let ip = iface.text("ipAddress");
    OspfInterfaceState {
        name: name.to_owned(),
        up: iface.flag("ifUp", false),
        address: cat3(ip.as_str(), "/", prefix.as_str()),
        area: iface.text("area"),
        router_id: iface.text("routerId"),
        network_type: iface.text("networkType"),
        cost: iface.num("cost") as u32,
        state: iface.text("state"),
        priority: iface.num("priority") as u32,
        dr_id: iface.text("drId"),
        dr_address: iface.text("drAddress"),
        hello_interval: (iface.num("timerMsecs") / 1000) as u32,
        dead_interval: iface.num("timerDeadSecs") as u32,
        neighbors: iface.num("nbrCount") as u32,
        adjacent: iface.num("nbrAdjacentCount") as u32,
    }
}

/// The interfaces that the interface document lists.
pub fn ospf_interfaces(interfaces: &Json) -> (r: Vec<OspfInterfaceState>)
    ensures
        are_ospf_interfaces(r@, crate::json::members_at(*interfaces, "interfaces"@)),
{
    let mut r: Vec<OspfInterfaceState> = Vec::new();
    match interfaces.get("interfaces") {
        Some(Json::Object(members)) => {
            let mut i: usize = 0;
            while i < members.len()
                invariant
                    i <= members@.len(),
                    r@.len() == i,
                    forall|j: int|
                        0 <= j < i ==> is_ospf_interface(
                            #[trigger] r@[j],
                            members@[j].0@,
                            members@[j].1,
                        ),
                decreases members@.len() - i,
            {
                r.push(ospf_interface(members[i].0.as_str(), &members[i].1));
                i = i + 1;
            }
        },
        _ => {},
    }
    r
}

/// The OSPF state out of the three documents.
pub open spec fn is_ospf_state(s: OspfState, overview: Json, neighbors: Json, interfaces: Json) -> bool {
    &&& is_ospf_overview(s, overview)
    &&& are_ospf_neighbors(
        s.neighbors@,
        listed(
            crate::json::members_at(neighbors, "neighbors"@),
            crate::json::members_at(neighbors, "neighbors"@).len() as int,
        ),
    )
    &&& are_ospf_interfaces(s.interfaces@, crate::json::members_at(interfaces, "interfaces"@))
}

/// What the three show commands give together: the first thing that goes
/// wrong, in the order in which the commands run, or the state.
pub open spec fn ospf_outcome(
    r: Result<OspfState, String>,
    overview: Option<Seq<char>>,
    neighbors: Option<Seq<char>>,
    interfaces: Option<Seq<char>>,
) -> bool {
    match vtysh_document("ospf"@, overview) {
        Err(e) => r matches Err(m) && m@ == e,
        Ok(a) => if crate::json::member(a, "routerId"@) is None {
            r matches Err(m) && m@ == "ospf is not running"@
        } else {
            match vtysh_document("ospf"@, neighbors) {
                Err(e) => r matches Err(m) && m@ == e,
                Ok(b) => match vtysh_document("ospf"@, interfaces) {
                    Err(e) => r matches Err(m) && m@ == e,
                    Ok(c) => r matches Ok(s) && is_ospf_state(s, a, b, c),
                },
            }
        },
    }
}

/// `show ip ospf json` + neighbors + interfaces.
pub fn ospf_state(
    overview: Option<&str>,
    neighbors: Option<&str>,
    interfaces: Option<&str>,
) -> (r: Result<OspfState, String>)
    ensures
        ospf_outcome(
            r,
            output_text(overview),
            output_text(neighbors),
            output_text(interfaces),
        ),
{
    let a = match vtysh_json("ospf", overview) {
        Ok(v) => v,
        Err(e) => {
            return Err(e);
        },
    };
    let mut state = match ospf_overview(&a) {
        Ok(s) => s,
        Err(e) => {
            return Err(e);
        },
    };
    let b = match vtysh_json("ospf", neighbors) {
        Ok(v) => v,
        Err(e) => {
            return Err(e);
        },
    };
    state.neighbors = ospf_neighbors(&b);
    let c = match vtysh_json("ospf", interfaces) {
        Ok(v) => v,
        Err(e) => {
            return Err(e);
        },
    };
    state.interfaces = ospf_interfaces(&c);
    Ok(state)
}

// ------------------------------------------------------------------- BGP

#[derive(Debug)]
pub struct BgpPeerState {
    pub ip: String,
    pub version: u32,
    pub remote_as: u32,
    pub msg_rcvd: u64,
    pub msg_sent: u64,
    pub in_q: u32,
    pub out_q: u32,
    pub up_down: String,
    pub state: String,
    pub pfx_rcvd: i64,
}

#[derive(Debug)]
pub struct BgpNeighborDetail {
    pub ip: String,
    pub remote_as: u32,
    pub description: String,
    pub state: String,
    pub uptime: String,
    pub msg_rcvd: u64,
    pub msg_sent: u64,
    pub prefixes_received: i64,
    pub prefixes_accepted: i64,
    pub prefixes_advertised: i64,
    pub next_hop_self: bool,
    pub ebgp_multihop: u32,
}

#[derive(Debug)]
pub struct BgpRibEntry {
    pub network: String,
    pub next_hop: String,
    pub metric: String,
    pub loc_pref: String,
    pub path: String,
    pub valid: bool,
    pub best: bool,
}

#[derive(Debug)]
pub struct BgpState {
    pub router_id: String,
    pub as_number: u32,
    pub peers: Vec<BgpPeerState>,
    pub routes: Vec<BgpRibEntry>,
    pub detail: Option<BgpNeighborDetail>,
}

/// The summary proper: under the address family, or the whole document.
pub open spec fn bgp_summary_part(v: Json) -> Json {
    match crate::json::member(v, "ipv4Unicast"@) {
        Some(part) => part,
        None => v,
    }
}

/// A peer is what its entry says. Established peers report a prefix count;
/// others report the state word in that column (-1 marks that).
pub open spec fn is_peer(p: BgpPeerState, ip: Seq<char>, v: Json) -> bool {
    &&& p.ip@ == ip
    &&& p.version == crate::json::count_member(v, "version"@) as u32
    &&& p.remote_as == crate::json::count_member(v, "remoteAs"@) as u32
    &&& p.msg_rcvd == crate::json::count_member(v, "msgRcvd"@)
    &&& p.msg_sent == crate::json::count_member(v, "msgSent"@)
    &&& p.in_q == crate::json::count_member(v, "inq"@) as u32
    &&& p.out_q == crate::json::count_member(v, "outq"@) as u32
    &&& p.up_down@ == crate::json::text_member(v, "peerUptime"@)
    &&& p.state@ == crate::json::text_member(v, "state"@)
    &&& p.pfx_rcvd == (if crate::json::text_member(v, "state"@) == "Established"@ {
        crate::json::count_member(v, "pfxRcd"@) as i64
    } else {
        -1i64
    })
}

pub open spec fn are_peers(ps: Seq<BgpPeerState>, members: Seq<(String, Json)>) -> bool {
    ps.len() == members.len() && forall|i: int|
        0 <= i < ps.len() ==> is_peer(#[trigger] ps[i], members[i].0@, members[i].1)
}

/// What the summary document says.
pub open spec fn is_bgp_summary(s: BgpState, document: Json) -> bool {
    let summary = bgp_summary_part(document);
    &&& crate::json::member(summary, "routerId"@) is Some
    &&& s.router_id@ == crate::json::text_member(summary, "routerId"@)
    &&& s.as_number == crate::json::count_member(summary, "as"@) as u32
    &&& are_peers(s.peers@, crate::json::members_at(summary, "peers"@))
}

fn bgp_peer(ip: &str, peer: &Json) -> (r: BgpPeerState)
    ensures
        is_peer(r, ip@, *peer),
{
    let state = peer.text("state");
    let established = same_text(state.as_str(), "Established");
    BgpPeerState {
        ip: ip.to_owned(),
        version: peer.num("version") as u32,
        remote_as: peer.num("remoteAs") as u32,
        msg_rcvd: peer.num("msgRcvd"),
        msg_sent: peer.num("msgSent"),
        in_q: peer.num("inq") as u32,
        out_q: peer.num("outq") as u32,
        up_down: peer.text("peerUptime"),
        state,
        pfx_rcvd: if established {
            peer.num("pfxRcd") as i64
        } else {
            -1
        },
    }
}

/// The state that the summary document gives, without routes and detail.
pub fn bgp_summary(document: &Json) -> (r: Result<BgpState, String>)
    ensures
        match r {
            Ok(s) => is_bgp_summary(s, *document) && s.routes@.len() == 0 && s.detail is None,
            Err(e) => crate::json::member(bgp_summary_part(*document), "routerId"@) is None && e@
                == "bgp is not running"@,
        },
{
    let summary = match document.get("ipv4Unicast") {
        Some(part) => part,
        None => document,
    };
    if summary.get("routerId").is_none() {
        return Err("bgp is not running".to_owned());
    }
    let mut peers: Vec<BgpPeerState> = Vec::new();
    match summary.get("peers") {
        Some(Json::Object(members)) => {
            let mut i: usize = 0;
            while i < members.len()
                invariant
                    i <= members@.len(),
                    peers@.len() == i,
                    forall|j: int|
                        0 <= j < i ==> is_peer(
                            #[trigger] peers@[j],
                            members@[j].0@,
                            members@[j].1,
                        ),
                decreases members@.len() - i,
            {
                peers.push(bgp_peer(members[i].0.as_str(), &members[i].1));
                i = i + 1;
            }
        },
        _ => {},
    }
    Ok(
        BgpState {
            router_id: summary.text("routerId"),
            as_number: summary.num("as") as u32,
            peers,
            routes: Vec::new(),
            detail: None,
        },
    )
}

/// The address family part of a neighbor's detail.
pub open spec fn bgp_family_part(entry: Json) -> Json {
    match crate::json::member(entry, "addressFamilyInfo"@) {
        Some(info) => crate::json::part_member(info, "ipv4Unicast"@),
        None => Json::Null,
    }
}

/// A neighbor's detail is what its entry says.
pub open spec fn is_detail(d: BgpNeighborDetail, neighbor: Seq<char>, entry: Json) -> bool {
    let stats = crate::json::part_member(entry, "messageStats"@);
    let af = bgp_family_part(entry);
    &&& d.ip@ == neighbor
    &&& d.remote_as == crate::json::count_member(entry, "remoteAs"@) as u32
    &&& d.description@ == crate::json::text_member(entry, "nbrDesc"@)
    &&& d.state@ == crate::json::text_member(entry, "bgpState"@)
    &&& d.uptime@ == crate::json::text_member(entry, "bgpTimerUpString"@)
    &&& d.msg_rcvd == crate::json::count_member(stats, "totalRecv"@)
    &&& d.msg_sent == crate::json::count_member(stats, "totalSent"@)
    &&& d.prefixes_received == crate::json::count_member(entry, "prefixReceivedCount"@) as i64
    &&& d.prefixes_accepted == crate::json::count_member(af, "acceptedPrefixCounter"@) as i64
    &&& d.prefixes_advertised == crate::json::count_member(af, "sentPrefixCounter"@) as i64
    &&& d.next_hop_self == crate::json::flag_member(af, "routerAlwaysNextHop"@, false)
    &&& d.ebgp_multihop == crate::json::count_member(entry, "externalBgpNbrMaxHopsAway"@) as u32
}

/// One neighbor's detail.
pub fn bgp_detail(neighbor: &str, document: &Json) -> (r: Result<BgpNeighborDetail, String>)
    ensures
        match crate::json::member(*document, neighbor@) {
            Some(entry) => r matches Ok(d) && is_detail(d, neighbor@, entry),
            None => r matches Err(e) && e@ == "no such neighbor "@ + neighbor@,
        },
{
    let entry = match document.get(neighbor) {
        Some(v) => v,
        None => {
            return Err(cat2("no such neighbor ", neighbor));
        },
    };
    let nothing = Json::Null;
    let stats = match entry.get("messageStats") {
        Some(v) => v,
        None => &nothing,
    };
    let af = match entry.get("addressFamilyInfo") {
        Some(info) => match info.get("ipv4Unicast") {
            Some(v) => v,
            None => &nothing,
        },
        None => &nothing,
    };
    Ok(
        BgpNeighborDetail {
            ip: neighbor.to_owned(),
            remote_as: entry.num("remoteAs") as u32,
            description: entry.text("nbrDesc"),
            state: entry.text("bgpState"),
            uptime: entry.text("bgpTimerUpString"),
            msg_rcvd: stats.num("totalRecv"),
            msg_sent: stats.num("totalSent"),
            prefixes_received: entry.num("prefixReceivedCount") as i64,
            prefixes_accepted: af.num("acceptedPrefixCounter") as i64,
            prefixes_advertised: af.num("sentPrefixCounter") as i64,
            next_hop_self: af.flag("routerAlwaysNextHop", false),
            ebgp_multihop: entry.num("externalBgpNbrMaxHopsAway") as u32,
        },
    )
}

/// The next hop of a path: the first of its list, or a dash.
pub open spec fn path_next_hop(path: Json) -> Seq<char> {
    let hops = crate::json::items_of(crate::json::part_member(path, "nexthops"@));
    if hops.len() > 0 && crate::json::text_member(hops[0], "ip"@).len() > 0 {
        crate::json::text_member(hops[0], "ip"@)
    } else {
        "-"@
    }
}

/// The letter that stands for where a path came from.
pub open spec fn origin_code(origin: Seq<char>) -> Seq<char> {
    if origin == "IGP"@ {
        "i"@
    } else if origin == "EGP"@ {
        "e"@
    } else {
        "?"@
    }
}

/// The path column: the AS path, if any, and the origin.
pub open spec fn path_column(path: Json) -> Seq<char> {
    let as_path = crate::json::text_member(path, "path"@);
    let code = origin_code(crate::json::text_member(path, "origin"@));
    if as_path.len() == 0 {
        code
    } else {
        as_path + " "@ + code
    }
}

/// A number, or what is shown where there is none.
pub open spec fn number_or(n: Option<u64>, otherwise: Seq<char>) -> Seq<char> {
    match n {
        Some(v) => crate::text::decimal_text(v as nat),
        None => otherwise,
    }
}

/// A route of the BGP table is what its path says.
pub open spec fn is_rib_entry(e: BgpRibEntry, network: Seq<char>, path: Json) -> bool {
    &&& e.network@ == network
    &&& e.next_hop@ == path_next_hop(path)
    &&& e.metric@ == number_or(crate::json::number_member(path, "metric"@), "-"@)
    &&& e.loc_pref@ == number_or(crate::json::number_member(path, "locPrf"@), "100"@)
    &&& e.path@ == path_column(path)
    &&& e.valid == crate::json::flag_member(path, "valid"@, false)
    &&& e.best == crate::json::flag_member(path, "bestpath"@, false)
}

pub open spec fn are_rib_entries(
    es: Seq<BgpRibEntry>,
    paths: Seq<(Seq<char>, Json)>,
) -> bool {
    es.len() == paths.len() && forall|i: int|
        0 <= i < es.len() ==> is_rib_entry(#[trigger] es[i], paths[i].0, paths[i].1)
}

fn shown_number(n: Option<u64>, otherwise: &str) -> (r: String)
    ensures
        r@ == number_or(n, otherwise@),
{
    match n {
        Some(v) => decimal(v),
        None => otherwise.to_owned(),
    }
}

fn next_hop_of(path: &Json) -> (r: String)
    ensures
        r@ == path_next_hop(*path),
{
    match path.get("nexthops") {
        Some(Json::List(hops)) => {
            if hops.len() > 0 {
                let ip = hops[0].text("ip");
                if !ip.as_str().is_empty() {
                    return ip;
                }
            }
        },
        _ => {},
    }
    "-".to_owned()
}

fn bgp_rib_entry(network: &str, path: &Json) -> (r: BgpRibEntry)
    ensures
        is_rib_entry(r, network@, *path),
{
    let origin = path.text("origin");
    let code = if same_text(origin.as_str(), "IGP") {
        "i"
    } else if same_text(origin.as_str(), "EGP") {
        "e"
    } else {
        "?"
    };
    let as_path = path.text("path");
    let column = if as_path.as_str().is_empty() {
        code.to_owned()
    } else {
        cat3(as_path.as_str(), " ", code)
    };
    BgpRibEntry {
        network: network.to_owned(),
        next_hop: next_hop_of(path),
        metric: shown_number(path.number("metric"), "-"),
        loc_pref: shown_number(path.number("locPrf"), "100"),
        path: column,
        valid: path.flag("valid", false),
        best: path.flag("bestpath", false),
    }
}

/// The routes that the table document lists: one for each path of each
/// network.
pub fn bgp_routes(rib: &Json) -> (r: Vec<BgpRibEntry>)
    ensures
        are_rib_entries(
            r@,
            listed(crate::json::members_at(*rib, "routes"@), crate::json::members_at(*rib, "routes"@).len() as int),
        ),
{
    let mut r: Vec<BgpRibEntry> = Vec::new();
    match rib.get("routes") {
        Some(Json::Object(members)) => {
            let mut i: usize = 0;
            while i < members.len()
                invariant
                    i <= members@.len(),
                    are_rib_entries(r@, listed(members@, i as int)),
                decreases members@.len() - i,
            {
                let ghost front = listed(members@, i as int);
                match &members[i].1 {
                    Json::List(paths) => {
                        let mut k: usize = 0;
                        assert(front + listed_items(members@[i as int], 0) =~= front);
                        while k < paths.len()
                            invariant
                                i < members@.len(),
                                k <= paths@.len(),
                                paths@ == crate::json::items_of(members@[i as int].1),
                                are_rib_entries(
                                    r@,
                                    front + listed_items(members@[i as int], k as int),
                                ),
                            decreases paths@.len() - k,
                        {
                            let ghost next = front + listed_items(members@[i as int], k + 1);
                            r.push(bgp_rib_entry(members[i].0.as_str(), &paths[k]));
                            assert(next =~= (front + listed_items(
                                members@[i as int],
                                k as int,
                            )).push((members@[i as int].0@, paths@[k as int])));
                            k = k + 1;
                        }
                    },
                    _ => {
                        assert(listed(members@, i + 1) =~= front);
                    },
                }
                i = i + 1;
            }
        },
        _ => {},
    }
    r
}

/// The command behind the summary: one neighbor's detail, or the table.
pub open spec fn bgp_second_text(neighbor: Seq<char>) -> Seq<char> {
    if neighbor.len() == 0 {
        BGP_ROUTES@
    } else {
        "show bgp neighbors "@ + neighbor + " json"@
    }
}

pub fn bgp_second_command(neighbor: &str) -> (r: String)
    ensures
        r@ == bgp_second_text(neighbor@),
{
    if neighbor.is_empty() {
        BGP_ROUTES.to_owned()
    } else {
        cat3("show bgp neighbors ", neighbor, " json")
    }
}

/// What the two show commands give together.
pub open spec fn bgp_outcome(
    r: Result<BgpState, String>,
    neighbor: Seq<char>,
    summary: Option<Seq<char>>,
    second: Option<Seq<char>>,
) -> bool {
    match vtysh_document("bgp"@, summary) {
        Err(e) => r matches Err(m) && m@ == e,
        Ok(a) => if crate::json::member(bgp_summary_part(a), "routerId"@) is None {
            r matches Err(m) && m@ == "bgp is not running"@
        } else {
            match vtysh_document("bgp"@, second) {
                Err(e) => r matches Err(m) && m@ == e,
                Ok(b) => if neighbor.len() == 0 {
                    r matches Ok(s) && is_bgp_summary(s, a) && s.detail is None
                        && are_rib_entries(
                        s.routes@,
                        listed(crate::json::members_at(b, "routes"@), crate::json::members_at(b, "routes"@).len() as int),
                    )
                } else {
                    match crate::json::member(b, neighbor) {
                        Some(entry) => r matches Ok(s) && is_bgp_summary(s, a) && s.routes@.len()
                            == 0 && s.detail is Some && is_detail(s.detail->0, neighbor, entry),
                        None => r matches Err(m) && m@ == "no such neighbor "@ + neighbor,
                    }
                },
            }
        },
    }
}

/// `show bgp ipv4 unicast summary json` (+ the RIB, or one neighbor's
/// detail when `neighbor` is given).
pub fn bgp_state(neighbor: &str, summary: Option<&str>, second: Option<&str>) -> (r: Result<
    BgpState,
    String,
>)
    ensures
        bgp_outcome(r, neighbor@, output_text(summary), output_text(second)),
{
    let a = match vtysh_json("bgp", summary) {
        Ok(v) => v,
        Err(e) => {
            return Err(e);
        },
    };
    let mut state = match bgp_summary(&a) {
        Ok(s) => s,
        Err(e) => {
            return Err(e);
        },
    };
    let b = match vtysh_json("bgp", second) {
        Ok(v) => v,
        Err(e) => {
            return Err(e);
        },
    };
    if !neighbor.is_empty() {
        match bgp_detail(neighbor, &b) {
            Ok(d) => {
                state.detail = Some(d);
                return Ok(state);
            },
            Err(e) => {
                return Err(e);
            },
        }
    }
    state.routes = bgp_routes(&b);
    Ok(state)
}

/// `clear bgp *` / `clear bgp <ip>`.
pub fn clear_bgp_command(neighbor: &str) -> (r: String)
    ensures
        r@ == "clear bgp "@ + (if neighbor@.len() == 0 {
            "*"@
        } else {
            neighbor@
        }),
{
    let target = if neighbor.is_empty() {
        "*"
    } else {
        neighbor
    };
    cat2("clear bgp ", target)
}

// ------------------------------------------------------------------ VRRP

#[derive(Debug)]
pub struct VrrpGroupState {
    pub interface: String,
    pub group: u32,
    pub priority: u32,
    pub effective_priority: u32,
    pub advertisement_interval_ms: u32,
    pub preempt: bool,
    pub state: String,
    pub addresses: Vec<String>,
    pub virtual_mac: String,
    pub skew_time_ms: u32,
    pub master_down_interval_ms: u32,
    pub seconds_since_transition: Option<u64>,
}

/// The IPv4 addresses of a group, without their prefix lengths: of the
/// first `n` items those that are texts.
pub open spec fn plain_addresses(items: Seq<Json>, n: int) -> Seq<Seq<char>>
    decreases n,
{
    if n <= 0 {
        Seq::empty()
    } else {
        match items[n - 1] {
            Json::Text(a) => plain_addresses(items, n - 1).push(
                crate::text::head_text(a@, '/'),
            ),
            _ => plain_addresses(items, n - 1),
        }
    }
}

/// Hundredths of a second, as a 32-bit number.
pub open spec fn centis(v: Json, key: Seq<char>) -> u32 {
    crate::json::count_member(v, key) as u32
}

/// The intervals of a group fit in 32 bits as milliseconds.
pub open spec fn group_fits(v: Json) -> bool {
    &&& centis(v, "advertisementIntervalCs"@) * 10 <= u32::MAX
    &&& centis(crate::json::part_member(v, "v4"@), "skewTimeCs"@) * 10 <= u32::MAX
    &&& centis(crate::json::part_member(v, "v4"@), "masterDownIntervalCs"@) * 10 <= u32::MAX
}

/// The intervals of every group fit.
pub open spec fn groups_fit(items: Seq<Json>) -> bool {
    forall|i: int| 0 <= i < items.len() ==> group_fits(#[trigger] items[i])
}

/// A group is what its entry says.
pub open spec fn is_group(g: VrrpGroupState, v: Json) -> bool {
    let v4 = crate::json::part_member(v, "v4"@);
    let items = crate::json::items_of(crate::json::part_member(v4, "addresses"@));
    &&& g.interface@ == crate::json::text_member(v, "interface"@)
    &&& g.group == crate::json::count_member(v, "vrid"@) as u32
    &&& g.priority == crate::json::count_member(v, "priority"@) as u32
    &&& g.effective_priority == crate::json::count_member(v4, "effectivePriority"@) as u32
    &&& g.advertisement_interval_ms == centis(v, "advertisementIntervalCs"@) * 10
    &&& g.preempt == crate::json::flag_member(v, "preemptMode"@, true)
    &&& g.state@ == crate::json::text_member(v4, "status"@)
    &&& g.addresses.deep_view() == plain_addresses(items, items.len() as int)
    &&& g.virtual_mac@ == "00:00:5e:00:01:"@ + crate::text::hex_text(g.group as nat, 2)
    &&& g.skew_time_ms == centis(v4, "skewTimeCs"@) * 10
    &&& g.master_down_interval_ms == centis(v4, "masterDownIntervalCs"@) * 10
    &&& g.seconds_since_transition == crate::json::number_member(v4, "statusLastChangeSecs"@)
}

pub open spec fn are_groups(gs: Seq<VrrpGroupState>, items: Seq<Json>) -> bool {
    gs.len() == items.len() && forall|i: int|
        0 <= i < gs.len() ==> is_group(#[trigger] gs[i], items[i])
}

fn addresses_of(v4: &Json) -> (r: Vec<String>)
    ensures
        r.deep_view() == plain_addresses(
            crate::json::items_of(crate::json::part_member(*v4, "addresses"@)),
            crate::json::items_of(crate::json::part_member(*v4, "addresses"@)).len() as int,
        ),
{
    let mut r: Vec<String> = Vec::new();
    assert(r.deep_view() =~= Seq::<Seq<char>>::empty());
    match v4.get("addresses") {
        Some(Json::List(items)) => {
            let mut i: usize = 0;
            while i < items.len()
                invariant
                    i <= items@.len(),
                    r.deep_view() == plain_addresses(items@, i as int),
                decreases items@.len() - i,
            {
                let ghost before = r.deep_view();
                match &items[i] {
                    Json::Text(a) => {
                        let plain = head(a.as_str(), '/');
                        let ghost p = plain@;
                        r.push(plain);
                        assert(r.deep_view() =~= before.push(p));
                    },
                    _ => {},
                }
                i = i + 1;
            }
        },
        _ => {},
    }
    r
}

fn vrrp_group(entry: &Json) -> (r: VrrpGroupState)
    requires
        group_fits(*entry),
    ensures
        is_group(r, *entry),
{
    let nothing = Json::Null;
    let v4 = match entry.get("v4") {
        Some(v) => v,
        None => &nothing,
    };
    let group: u32 = entry.num("vrid") as u32;
    let advertisement: u32 = entry.num("advertisementIntervalCs") as u32;
    let skew: u32 = v4.num("skewTimeCs") as u32;
    let down: u32 = v4.num("masterDownIntervalCs") as u32;
    let suffix = hex(group as u64, 2);
    VrrpGroupState {
        interface: entry.text("interface"),
        group,
        priority: entry.num("priority") as u32,
        effective_priority: v4.num("effectivePriority") as u32,
        advertisement_interval_ms: advertisement * 10,
        preempt: entry.flag("preemptMode", true),
        state: v4.text("status"),
        addresses: addresses_of(v4),
        virtual_mac: cat2("00:00:5e:00:01:", suffix.as_str()),
        skew_time_ms: skew * 10,
        master_down_interval_ms: down * 10,
        seconds_since_transition: v4.number("statusLastChangeSecs"),
    }
}

/// Do the intervals of a group fit?
fn check_group(entry: &Json) -> (r: bool)
    ensures
        r == group_fits(*entry),
{
    let nothing = Json::Null;
    let v4 = match entry.get("v4") {
        Some(v) => v,
        None => &nothing,
    };
    let advertisement: u64 = (entry.num("advertisementIntervalCs") as u32) as u64;
    let skew: u64 = (v4.num("skewTimeCs") as u32) as u64;
    let down: u64 = (v4.num("masterDownIntervalCs") as u32) as u64;
    advertisement * 10 <= u32::MAX as u64 && skew * 10 <= u32::MAX as u64 && down * 10
        <= u32::MAX as u64
}

fn check_groups(items: &Vec<Json>) -> (r: bool)
    ensures
        r == groups_fit(items@),
{
    let mut i: usize = 0;
    while i < items.len()
        invariant
            i <= items@.len(),
            forall|j: int| 0 <= j < i ==> group_fits(#[trigger] items@[j]),
        decreases items@.len() - i,
    {
        if !check_group(&items[i]) {
            assert(!group_fits(items@[i as int]));
            return false;
        }
        i = i + 1;
    }
    true
}

/// The VRRP groups of the document.
pub fn vrrp_groups(document: &Json) -> (r: Result<Vec<VrrpGroupState>, String>)
    requires
        groups_fit(crate::json::items_of(*document)),
    ensures
        match *document {
            Json::List(items) => r matches Ok(gs) && are_groups(gs@, items@),
            _ => r matches Err(e) && e@ == "vrrp is not running"@,
        },
{
    match document {
        Json::List(items) => {
            let mut gs: Vec<VrrpGroupState> = Vec::new();
            let mut i: usize = 0;
            while i < items.len()
                invariant
                    i <= items@.len(),
                    groups_fit(items@),
                    gs@.len() == i,
                    forall|j: int| 0 <= j < i ==> is_group(#[trigger] gs@[j], items@[j]),
                decreases items@.len() - i,
            {
                gs.push(vrrp_group(&items[i]));
                i = i + 1;
            }
            Ok(gs)
        },
        _ => Err("vrrp is not running".to_owned()),
    }
}

/// `show vrrp json`. No groups come back where an interval is too long for
/// its field.
pub fn vrrp_state(output: Option<&str>) -> (r: Result<Option<Vec<VrrpGroupState>>, String>)
    ensures
        match vtysh_document("vrrp"@, output_text(output)) {
            Err(e) => r matches Err(m) && m@ == e,
            Ok(v) => match v {
                Json::List(items) => if groups_fit(items@) {
                    r matches Ok(Some(gs)) && are_groups(gs@, items@)
                } else {
                    r matches Ok(None)
                },
                _ => r matches Err(m) && m@ == "vrrp is not running"@,
            },
        },
{
    let v = match vtysh_json("vrrp", output) {
        Ok(v) => v,
        Err(e) => {
            return Err(e);
        },
    };
    match &v {
        Json::List(items) => {
            if !check_groups(items) {
                return Ok(None);
            }
        },
        _ => {},
    }
    match vrrp_groups(&v) {
        Ok(gs) => Ok(Some(gs)),
        Err(e) => Err(e),
    }
}

} // verus!
