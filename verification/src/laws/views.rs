//! Laws of what is read from outside and of what is shown of it.

use vstd::prelude::*;

use crate::dhcp::BootpReply;
use crate::dot1x::{PortConf, PortSnapshot, PortState};
use crate::frrshow::{BgpRibEntry, BgpState, OspfState, VrrpGroupState};
use crate::ip::Ipv4;
use crate::json::Json;
use crate::lacp::Lag;
use crate::rib::{KernelNeighbor, KernelRoute, NeighborView, ProgramView, RouteView};
use crate::snoopsec::{
    BindingSnapshot, DynamicBinding, RelayVlan, RelayVlanStats, StaticBinding,
};

verus! {

// ---------------------------------------------------------------- DHCP

/// A BOOTP message is read where it is written: the kind, the flag, the offered
/// address, the client, and what its options say.
pub proof fn lemma_messages_are_read(r: BootpReply, d: Seq<u8>, i: int)
    requires
        crate::dhcp::is_bootp(r, d),
        d.len() >= 240,
    ensures
        r.is_reply <==> d[0] == 2,
        r.broadcast_flag <==> d[10] >= 128,
        r.yiaddr.bits == d[16] * 0x100_0000 + d[17] * 0x1_0000 + d[18] * 0x100 + d[19],
        0 <= i < 6 ==> r.chaddr@[i] == d[28 + i],
        r.message_type == crate::dhcp::type_in(crate::dhcp::options_of(d, 240)),
        r.lease_secs == crate::dhcp::lease_in(crate::dhcp::options_of(d, 240)),
{
}

// ------------------------------------------------------------- 802.1X

/// The row of a port is its state as it is.
pub proof fn lemma_ports_show_their_state(r: PortSnapshot, name: Seq<char>, s: PortState)
    requires
        crate::dot1x::shows_port(r, name, s),
    ensures
        r.port@ == name,
        r.authorized == s.authorized,
        r.supplicant == s.supplicant,
        r.last_auth == s.last_auth,
        r.failures == s.failures,
{
}

/// The file of a port is named after it and holds its settings.
pub proof fn lemma_files_are_named(
    r: PortConf,
    port: Seq<char>,
    config: crate::dot1x::Config,
    dir: Seq<char>,
)
    requires
        crate::dot1x::is_conf(r, port, config, dir),
    ensures
        r.port@ == port,
        r.file@ == port + ".conf"@,
        r.text@ == crate::dot1x::hostapd_text(
            port,
            config.radius.deep_view(),
            config.reauth_interval,
            dir,
        ),
{
}

/// A new port starts over; the others stay.
pub proof fn lemma_new_ports(
    ports: Map<Seq<char>, PortState>,
    names: Seq<Seq<char>>,
    name: Seq<char>,
)
    ensures
        ({
            let r = crate::dot1x::with_new(ports, names);
            &&& names.contains(name) ==> r.dom().contains(name) && r[name]
                == crate::dot1x::new_port()
            &&& !names.contains(name) ==> r.dom().contains(name) == ports.dom().contains(name) && (
            ports.dom().contains(name) ==> r[name] == ports[name])
        }),
{
    let set = crate::ordmap::name_set(names);
    if names.contains(name) {
        let i = choose|i: int| 0 <= i < names.len() && names[i] == name;
        assert(set.contains(names[i]));
    }
    if set.contains(name) {
        assert(names.contains(name));
    }
}

// ----------------------------------------------------------------- FRR

/// Without its output a protocol is not running; what is no JSON is
/// unexpected; the first trouble of the three is the answer.
pub proof fn lemma_ospf_answers(
    r: Result<OspfState, String>,
    overview: Option<Seq<char>>,
    neighbors: Option<Seq<char>>,
    interfaces: Option<Seq<char>>,
)
    requires
        crate::frrshow::ospf_outcome(r, overview, neighbors, interfaces),
    ensures
        ({
            let a = crate::frrshow::vtysh_document("ospf"@, overview);
            let b = crate::frrshow::vtysh_document("ospf"@, neighbors);
            let c = crate::frrshow::vtysh_document("ospf"@, interfaces);
            let runs = a is Ok && crate::json::member(a->Ok_0, "routerId"@) is Some;
            &&& a is Err ==> r is Err && r->Err_0@ == a->Err_0
            &&& a is Ok && !runs ==> r is Err && r->Err_0@ == "ospf is not running"@
            &&& runs && b is Err ==> r is Err && r->Err_0@ == b->Err_0
            &&& runs && b is Ok && c is Err ==> r is Err && r->Err_0@ == c->Err_0
            &&& runs && b is Ok && c is Ok ==> r is Ok && crate::frrshow::is_ospf_state(
                r->Ok_0,
                a->Ok_0,
                b->Ok_0,
                c->Ok_0,
            )
        }),
{
}

/// The routes of BGP are answered without a neighbor, the detail with one; a
/// neighbor that is not there is an error.
pub proof fn lemma_bgp_answers(
    r: Result<BgpState, String>,
    neighbor: Seq<char>,
    summary: Option<Seq<char>>,
    second: Option<Seq<char>>,
)
    requires
        crate::frrshow::bgp_outcome(r, neighbor, summary, second),
    ensures
        ({
            let a = crate::frrshow::vtysh_document("bgp"@, summary);
            let b = crate::frrshow::vtysh_document("bgp"@, second);
            let runs = a is Ok && crate::json::member(
                crate::frrshow::bgp_summary_part(a->Ok_0),
                "routerId"@,
            ) is Some;
            let there = b is Ok && crate::json::member(b->Ok_0, neighbor) is Some;
            &&& a is Err ==> r is Err && r->Err_0@ == a->Err_0
            &&& a is Ok && !runs ==> r is Err && r->Err_0@ == "bgp is not running"@
            &&& runs && b is Err ==> r is Err && r->Err_0@ == b->Err_0
            &&& runs && b is Ok && neighbor.len() == 0 ==> r is Ok
                && crate::frrshow::is_bgp_summary(r->Ok_0, a->Ok_0) && r->Ok_0.detail is None
            &&& runs && neighbor.len() > 0 && there ==> r is Ok
                && crate::frrshow::is_bgp_summary(r->Ok_0, a->Ok_0) && r->Ok_0.routes@.len() == 0
                && r->Ok_0.detail is Some && crate::frrshow::is_detail(
                r->Ok_0.detail->0,
                neighbor,
                crate::json::member(b->Ok_0, neighbor)->0,
            )
            &&& runs && b is Ok && neighbor.len() > 0 && !there ==> r is Err && r->Err_0@
                == "no such neighbor "@ + neighbor
        }),
{
}

/// What a daemon does not answer is not running, and what is no JSON is
/// unexpected, whatever stands around it.
pub proof fn lemma_documents(protocol: Seq<char>, text: Seq<char>)
    ensures
        crate::frrshow::vtysh_document(protocol, None) == Err::<Json, Seq<char>>(
            protocol + " is not running"@,
        ),
        crate::json::json_document(crate::text::trim_text(text)) is None
            ==> crate::frrshow::vtysh_document(protocol, Some(text)) == Err::<Json, Seq<char>>(
            "unexpected vtysh output"@,
        ),
        crate::json::json_document(crate::text::trim_text(text)) matches Some(v)
            ==> crate::frrshow::vtysh_document(protocol, Some(text)) == Ok::<Json, Seq<char>>(v),
{
}

/// The second question to BGP is about the routes or about one neighbor.
pub proof fn lemma_second_question(neighbor: Seq<char>)
    ensures
        crate::frrshow::bgp_second_text(Seq::empty()) == crate::frrshow::BGP_ROUTES@,
        neighbor.len() > 0 ==> crate::frrshow::bgp_second_text(neighbor) == "show bgp neighbors "@
            + neighbor + " json"@,
{
}

/// The rows are one for one what they are read from.
pub proof fn lemma_rows_are_read(
    es: Seq<BgpRibEntry>,
    paths: Seq<(Seq<char>, Json)>,
    gs: Seq<VrrpGroupState>,
    items: Seq<Json>,
    i: int,
)
    ensures
        crate::frrshow::are_rib_entries(es, paths) ==> es.len() == paths.len() && (0 <= i < es.len()
            ==> crate::frrshow::is_rib_entry(es[i], paths[i].0, paths[i].1)),
        crate::frrshow::are_groups(gs, items) ==> gs.len() == items.len() && (0 <= i < gs.len()
            ==> crate::frrshow::is_group(gs[i], items[i])),
{
}

// ---------------------------------------------------------------- LACP

/// A port belongs to the last aggregate that has it as a member.
pub proof fn lemma_owners(lags: Seq<(u16, Lag)>, n: int, port: Seq<char>)
    requires
        0 < n <= lags.len(),
    ensures
        ({
            let r = crate::lacp::owners(lags, n);
            let had = crate::lacp::owners(lags, n - 1);
            let holds = lags[n - 1].1.members@.dom().contains(port);
            &&& !crate::lacp::owners(lags, 0).dom().contains(port)
            &&& r.dom().contains(port) <==> holds || had.dom().contains(port)
            &&& holds ==> r[port] == lags[n - 1].0
            &&& !holds && had.dom().contains(port) ==> r[port] == had[port]
        }),
{
}

/// The frames of a pass are those of the aggregates in their order; an
/// aggregate is pushed where nothing was pushed before or something changed.
pub proof fn lemma_passes_go_in_order(
    lags: Seq<(u16, Lag)>,
    system_priority: u16,
    mac: Seq<u8>,
    now: u64,
    n: int,
)
    requires
        0 < n <= lags.len(),
    ensures
        crate::lacp::all_frames(lags, system_priority, mac, now, 0).len() == 0,
        crate::lacp::all_updates(lags, now, 0).len() == 0,
        ({
            let lag = lags[n - 1].1;
            let list = crate::lacp::gate_list(lag, now);
            let had = crate::lacp::all_updates(lags, now, n - 1);
            &&& crate::lacp::all_frames(lags, system_priority, mac, now, n)
                == crate::lacp::all_frames(lags, system_priority, mac, now, n - 1)
                + crate::lacp::lag_frames(
                lag,
                system_priority,
                mac,
                now,
                lag.members.entries@.len() as int,
            )
            &&& lag.last_gates is None ==> crate::lacp::all_updates(lags, now, n) == had.push(
                (lag.config.group, list),
            )
            &&& lag.last_gates matches Some(g) ==> crate::lacp::all_updates(lags, now, n) == (
            if g.deep_view() == list {
                had
            } else {
                had.push((lag.config.group, list))
            })
        }),
{
}

// -------------------------------------------------------------- routes

/// A row of the route table is its route: the uptime, the hops, the FIB state
/// and the connected interface are those of the route, and its prefix stands.
pub proof fn lemma_route_rows(
    vs: Seq<RouteView>,
    rs: Seq<KernelRoute>,
    wanted: ProgramView,
    l3: Set<Seq<char>>,
    seen: Map<Seq<char>, u64>,
    now: u64,
    i: int,
)
    requires
        crate::rib::are_route_views(vs, rs, wanted, l3, seen, now),
        0 <= i < rs.len(),
    ensures
        vs.len() == rs.len(),
        vs[i].prefix@ == rs[i].prefix@,
        vs[i].protocol@ == crate::rib::shown_protocol(rs[i]).0,
        vs[i].distance == crate::rib::shown_protocol(rs[i]).1,
        vs[i].metric == crate::rib::shown_protocol(rs[i]).2,
        vs[i].uptime_secs == crate::rib::uptime(seen, rs[i].prefix@, now),
        vs[i].hops.deep_view() == crate::rib::shown_hops(
            rs[i].hops@,
            wanted.neighbors,
            rs[i].hops@.len() as int,
        ),
        vs[i].fib@ == crate::rib::shown_fib(rs[i], wanted.routes, l3),
        crate::text::option_text(vs[i].interface) == crate::rib::connected_interface(rs[i]),
{
    assert(crate::rib::is_route_view(vs[i], rs[i], wanted, l3, seen, now));
}

/// A row of the neighbor table is its neighbor.
pub proof fn lemma_neighbor_rows(vs: Seq<NeighborView>, ns: Seq<KernelNeighbor>, i: int)
    requires
        crate::rib::are_neighbor_views(vs, ns),
        0 <= i < ns.len(),
    ensures
        vs.len() == ns.len(),
        vs[i].ip@ == ns[i].ip@,
        ns[i].mac matches Some(m) ==> vs[i].mac@ == m@,
        ns[i].mac is None ==> vs[i].mac@ == Seq::<char>::empty(),
        vs[i].interface@ == ns[i].dev@,
        vs[i].permanent == ns[i].permanent,
        vs[i].age_secs == ns[i].age_secs,
{
    assert(crate::rib::is_neighbor_view(vs[i], ns[i]));
}

/// A dump is read entry by entry; what is no JSON has none.
pub proof fn lemma_dumps_are_read(
    rs: Seq<KernelRoute>,
    ns: Seq<KernelNeighbor>,
    entries: Seq<Json>,
    v6: bool,
    text: Seq<char>,
    i: int,
)
    ensures
        crate::rib::are_routes(rs, entries, v6) ==> rs.len() == entries.len() && (0 <= i < rs.len()
            ==> crate::rib::is_route(rs[i], entries[i], v6)),
        crate::rib::are_neighbors(ns, entries) ==> ns.len() == entries.len() && (0 <= i < ns.len()
            ==> crate::rib::is_neighbor(ns[i], entries[i])),
        crate::json::json_document(text) is None ==> crate::rib::dump_items(text).len() == 0,
        crate::json::json_document(text) matches Some(v) ==> crate::rib::dump_items(text)
            == crate::json::items_of(v),
{
}

// ------------------------------------------------------------ snooping

/// A frame is flooded to each of the ports, once, as it came.
pub proof fn lemma_floods_reach_all(
    out: Seq<(String, Vec<u8>)>,
    ports: Set<Seq<char>>,
    frame: Seq<u8>,
    port: Seq<char>,
    i: int,
    j: int,
)
    requires
        crate::snoopsec::floods(out, ports, frame),
    ensures
        0 <= i < out.len() ==> out[i].1@ == frame && ports.contains(out[i].0@),
        0 <= i < j < out.len() ==> out[i].0@ != out[j].0@,
        ports.contains(port) ==> exists|k: int|
            0 <= k < out.len() && (#[trigger] out[k]).0@ == port,
{
    let names = crate::snoopsec::out_ports(out);
    if 0 <= i < out.len() {
        assert(names[i] == out[i].0@);
        assert(crate::ordmap::name_set(names).contains(names[i]));
    }
    if 0 <= i < j < out.len() {
        assert(names[i] == out[i].0@ && names[j] == out[j].0@);
        assert(crate::text::text_before(names[i], names[j]));
        if names[i] == names[j] {
            lemma_not_before_itself(names[i]);
        }
    }
    if ports.contains(port) {
        assert(names.contains(port));
        let k = choose|k: int| 0 <= k < names.len() && names[k] == port;
        assert(out[k].0@ == port);
    }
}

proof fn lemma_not_before_itself(s: Seq<char>)
    ensures
        !crate::text::text_before(s, s),
    decreases s.len(),
{
    if s.len() > 0 {
        lemma_not_before_itself(s.skip(1));
    }
}

/// A reply goes back to the first VLAN whose relay has its address.
pub proof fn lemma_relays_own_replies(relays: Seq<(u16, RelayVlan)>, giaddr: Ipv4, from: int)
    requires
        0 <= from,
    ensures
        match crate::snoopsec::relay_owner(relays, giaddr, from) {
            Some(vlan) => exists|i: int|
                from <= i < relays.len() && (#[trigger] relays[i]).0 == vlan && relays[i].1.giaddr
                    == giaddr && forall|j: int|
                    from <= j < i ==> (#[trigger] relays[j]).1.giaddr != giaddr,
            None => forall|i: int|
                from <= i < relays.len() ==> (#[trigger] relays[i]).1.giaddr != giaddr,
        },
    decreases relays.len() - from,
{
    if from < relays.len() {
        if relays[from].1.giaddr == giaddr {
            assert(relays[from].0 == relays[from].0);
        } else {
            lemma_relays_own_replies(relays, giaddr, from + 1);
            if crate::snoopsec::relay_owner(relays, giaddr, from + 1) is Some {
                let vlan = crate::snoopsec::relay_owner(relays, giaddr, from + 1)->0;
                let i = choose|i: int|
                    from + 1 <= i < relays.len() && (#[trigger] relays[i]).0 == vlan
                        && relays[i].1.giaddr == giaddr && forall|j: int|
                        from + 1 <= j < i ==> (#[trigger] relays[j]).1.giaddr != giaddr;
                assert(relays[i].0 == vlan);
            }
        }
    }
}

/// The bindings are shown the leased first, with what is left of each lease,
/// then the static ones, which have none.
pub proof fn lemma_binding_rows(
    rows: Seq<BindingSnapshot>,
    dynamics: Seq<((String, u16), DynamicBinding)>,
    statics: Seq<((String, u16), StaticBinding)>,
    now: u64,
    i: int,
)
    requires
        crate::snoopsec::are_rows(rows, dynamics, statics, now),
    ensures
        rows.len() == dynamics.len() + statics.len(),
        0 <= i < dynamics.len() ==> {
            let (key, b) = dynamics[i];
            &&& rows[i].mac@ == key.0@ && rows[i].vlan == key.1
            &&& rows[i].ip == b.ip && rows[i].interface@ == b.interface@
            &&& rows[i].lease_secs is Some
            &&& b.expires_at >= now ==> rows[i].lease_secs->0 == b.expires_at - now
            &&& b.expires_at < now ==> rows[i].lease_secs->0 == 0
        },
        0 <= i < statics.len() ==> {
            let (key, b) = statics[i];
            let row = rows[dynamics.len() + i];
            &&& row.mac@ == key.0@ && row.vlan == key.1
            &&& row.ip == b.ip && row.interface@ == b.interface@
            &&& row.lease_secs is None
        },
{
    if 0 <= i < dynamics.len() {
        assert(crate::snoopsec::is_dynamic_row(rows[i], dynamics[i], now));
    }
    if 0 <= i < statics.len() {
        assert(crate::snoopsec::is_static_row(rows[dynamics.len() + i], statics[i]));
    }
}

/// The relays are shown with their servers and what they counted, nothing yet
/// where they counted nothing.
pub proof fn lemma_relay_rows(
    rows: Seq<(u16, (RelayVlan, RelayVlanStats))>,
    relays: Seq<(u16, RelayVlan)>,
    stats: Map<u16, RelayVlanStats>,
    i: int,
)
    requires
        crate::snoopsec::are_relay_rows(rows, relays, stats),
        0 <= i < relays.len(),
    ensures
        rows.len() == relays.len(),
        ({
            let (vlan, (relay, counted)) = rows[i];
            &&& vlan == relays[i].0
            &&& relay.giaddr == relays[i].1.giaddr
            &&& relay.servers@ == relays[i].1.servers@
            &&& stats.dom().contains(vlan) ==> counted == stats[vlan]
        }),
{
    assert(rows[i].0 == relays[i].0);
}

/// An MLD message is at least a whole IPv6 header and its own eight bytes, of
/// IPv6, with the next header of ICMPv6 where it stands.
pub proof fn lemma_mld_frames(frame: Seq<u8>)
    requires
        crate::snoop::is_mld(frame),
    ensures
        frame.len() >= 62,
        frame[12] == 0x86 && frame[13] == 0xdd,
        frame[14] / 16 == 6,
        frame[20] == 58 || (frame[20] == 0 && frame[54] == 58),
{
}

// ------------------------------------------------------------- answers

/// Instances, checks, counters and servers are shown one for one.
pub proof fn lemma_lists_are_shown(
    r: Seq<(u32, Vec<u32>)>,
    entries: Seq<(u8, Vec<u16>)>,
    vlans: Seq<u16>,
    servers: Seq<crate::dot1x::Radius>,
    i: int,
    k: int,
)
    ensures
        crate::answers::shows_instances(r, entries) ==> r.len() == entries.len() && (0 <= i
            < r.len() ==> r[i].0 == entries[i].0 && r[i].1@.len() == entries[i].1@.len() && (0 <= k
            < r[i].1@.len() ==> r[i].1@[k] == entries[i].1@[k])),
        crate::answers::widened(vlans).len() == vlans.len(),
        0 <= i < vlans.len() ==> crate::answers::widened(vlans)[i] == vlans[i],
        crate::answers::server_texts(servers).len() == servers.len(),
        0 <= i < servers.len() ==> crate::answers::server_texts(servers)[i] == servers[i].ip@ + ":"@
            + crate::text::decimal_text(servers[i].port as nat),
{
}

/// An address that is not set is six zeros.
pub proof fn lemma_no_address(mac: Seq<u8>, i: int)
    ensures
        crate::topology::or_zeros(Some(mac)) == mac,
        crate::topology::or_zeros(None).len() == 6,
        0 <= i < 6 ==> crate::topology::or_zeros(None)[i] == 0,
{
}

/// A clone of a configuration is the configuration.
pub proof fn lemma_configurations_stay(a: crate::sflow::Config, b: crate::sflow::Config)
    requires
        crate::sflow::same_config(a, b),
    ensures
        a.enabled == b.enabled,
        a.collectors@ == b.collectors@,
        a.sample_rate == b.sample_rate,
        a.polling_interval == b.polling_interval,
        a.agent_address == b.agent_address,
        a.agent_interface@ == b.agent_interface@,
        a.enabled_ports@ == b.enabled_ports@,
        a.disabled_ports@ == b.disabled_ports@,
{
}

// --------------------------------------------------------- DHCP server

/// What the server shows is its pools, the leases in order, and for each pool,
/// and for nothing else, how many of them it uses.
pub proof fn lemma_server_shows(
    r: crate::dhcpserver::Snapshot,
    config: crate::dhcpserver::Config,
    text: Seq<char>,
    i: int,
)
    requires
        crate::dhcpserver::shows(r, config, text),
    ensures
        r.pools@.len() == config.pools@.len(),
        r.leases.deep_view() == crate::dhcpserver::sorted_leases(
            crate::dhcpserver::merged(config.pools@, text),
        ),
        0 <= i < config.pools@.len() ==> {
            let a = r.pools@[i];
            let b = config.pools@[i];
            let rows = crate::dhcpserver::merged(config.pools@, text);
            &&& a.name@ == b.name@ && a.network@ == b.network@
            &&& a.range_start == b.range_start && a.range_end == b.range_end
            &&& a.gateway == b.gateway && a.dns_servers@ == b.dns_servers@
            &&& a.lease_time == b.lease_time && a.domain_name@ == b.domain_name@
            &&& r.in_use@.dom().contains(b.name@)
            &&& r.in_use@[b.name@] == crate::dhcpserver::used(
                config.pools@,
                rows,
                rows.len() as int,
                b.name@,
            )
        },
{
    if 0 <= i < config.pools@.len() {
        assert(crate::dhcpserver::same_pool(r.pools@[i], config.pools@[i]));
        assert(config.pools@[i].name@ == config.pools@[i].name@);
        assert(crate::dhcpserver::names_pool(
            config.pools@,
            config.pools@[i].name@,
            config.pools@.len() as int,
        ));
        assert(r.in_use@.dom().contains(config.pools@[i].name@));
    }
}

/// Clearing a lease takes out the lines of its address and no others.
pub proof fn lemma_lines_are_kept(lines: Seq<Seq<char>>, address: Ipv4, n: int)
    requires
        0 < n <= lines.len(),
    ensures
        ({
            let r = crate::dhcpserver::kept_lines(lines, address, n);
            let had = crate::dhcpserver::kept_lines(lines, address, n - 1);
            let l = crate::dhcpserver::lease_line(lines[n - 1]);
            &&& crate::dhcpserver::kept_lines(lines, address, 0).len() == 0
            &&& l is Some && l->0.address == address ==> r == had
            &&& l is None || l->0.address != address ==> r == had.push(lines[n - 1])
        }),
{
}

// --------------------------------------------------------------- clock

/// The moment of a stamp stands between the day and the zone, which is UTC.
pub proof fn lemma_stamps(day: Seq<char>, moment: Seq<char>, zone: Seq<char>)
    requires
        !day.contains(' '),
        !zone.contains(' '),
    ensures
        zone == "UTC"@ ==> crate::ntpshow::stamp_text(day.push(' ') + moment.push(' ') + zone)
            == Some(crate::text::trim_text(moment)),
        zone != "UTC"@ ==> crate::ntpshow::stamp_text(day.push(' ') + moment.push(' ') + zone)
            is None,
{
    let s = day.push(' ') + moment.push(' ') + zone;
    let rest = moment.push(' ') + zone;
    crate::laws::basics::lemma_cut_texts(s, ' ');
    assert(s[day.len() as int] == ' ');
    assert(s.contains(' '));
    crate::text::lemma_first_at(s, ' ');
    let i = crate::text::first_at(s, ' ')->0;
    assert(i == day.len()) by {
        if i < day.len() {
            assert(s[i] == day[i]);
            assert(day.contains(' '));
        }
    }
    assert(s.skip(i + 1) =~= rest);
    crate::laws::basics::lemma_cut_texts(rest, ' ');
    assert(rest[moment.len() as int] == ' ');
    assert(rest.contains(' '));
    if let Some(p) = crate::text::cut_last_text(rest, ' ') {
        let k = p.0.len() as int;
        assert(rest[k] == ' ');
        if k > moment.len() {
            assert(zone[k - moment.len() - 1] == rest[k]);
            assert(zone.contains(' '));
        }
        if k < moment.len() {
            assert(p.1[moment.len() - k - 1] == rest[moment.len() as int]);
            assert(p.1.contains(' '));
        }
        assert(rest.take(k) =~= p.0);
        assert(rest.take(k) =~= moment);
        assert(rest.skip(k + 1) =~= p.1);
        assert(rest.skip(k + 1) =~= zone);
    }
}

/// A moment that has not come has no age, nor has one that cannot be read.
pub proof fn lemma_ages(stamp: Seq<char>, secs: i64, nanos: u32, n: i64)
    ensures
        n >= 0 ==> crate::ntpshow::age_of(Some(n)) == Some(n as u64),
        n < 0 ==> crate::ntpshow::age_of(Some(n)) is None,
        crate::ntpshow::age_of(None) is None,
        crate::ntpshow::stamp_text(stamp) is None ==> crate::ntpshow::stamp_age(stamp, secs, nanos)
            is None,
        crate::ntpshow::stamp_text(stamp) matches Some(text) ==> {
            let then = crate::ntpshow::moment_of(text, "%Y-%m-%d %H:%M:%S"@);
            &&& then is None ==> crate::ntpshow::stamp_age(stamp, secs, nanos) is None
            &&& then matches Some(t) ==> crate::ntpshow::stamp_age(stamp, secs, nanos)
                == crate::ntpshow::age_of(crate::ntpshow::moments_apart(secs, nanos, t.0, t.1))
        },
{
}

// --------------------------------------------------------------- board

/// A switch chip is there where a device is of its vendor.
pub proof fn lemma_chips_are_found(vendors: Seq<Seq<char>>, names: Seq<Seq<char>>, n: int)
    requires
        0 < n <= vendors.len(),
        n <= names.len(),
    ensures
        !crate::sysinit::vendor_listed(vendors, 0),
        crate::sysinit::vendor_listed(vendors, n) <==> crate::sysinit::vendor_listed(vendors, n - 1)
            || crate::text::trim_text(vendors[n - 1]) == "0x14e4"@,
        !crate::sysinit::cmic_listed(names, 0),
        crate::sysinit::cmic_listed(names, n) <==> crate::sysinit::cmic_listed(names, n - 1)
            || crate::text::finishes_with(
            names[n - 1],
            crate::sysinit::SOC_CMIC_DEVICE_SUFFIX@,
        ),
{
    if crate::sysinit::vendor_listed(vendors, n - 1) {
        let i = choose|i: int|
            0 <= i < n - 1 && crate::text::trim_text(#[trigger] vendors[i]) == "0x14e4"@;
        assert(crate::text::trim_text(vendors[i]) == "0x14e4"@);
    }
    if crate::sysinit::cmic_listed(names, n - 1) {
        let i = choose|i: int|
            0 <= i < n - 1 && crate::text::finishes_with(
                #[trigger] names[i],
                crate::sysinit::SOC_CMIC_DEVICE_SUFFIX@,
            );
        assert(crate::text::finishes_with(
            names[i],
            crate::sysinit::SOC_CMIC_DEVICE_SUFFIX@,
        ));
    }
}

/// A module is loaded by its name and the words that are configured for it.
pub proof fn lemma_modules_are_loaded(module: Seq<char>, args: Map<Seq<char>, String>)
    ensures
        !args.dom().contains(module) ==> crate::sysinit::modprobe_args(module, args)
            == seq![module],
        args.dom().contains(module) ==> crate::sysinit::modprobe_args(module, args) == seq![module]
            + crate::text::words_of(args[module]@),
        crate::sysinit::modprobe_args(module, args)[0] == module,
{
}

/// A byte is read in hexadecimal, with its mark or without.
pub proof fn lemma_bytes_are_hexadecimal(text: Seq<char>)
    ensures
        ({
            let t = crate::text::trim_text(text);
            let marked = crate::text::begins_with(t, "0x"@) || crate::text::begins_with(t, "0X"@);
            &&& marked ==> crate::sysinit::i2c_byte(text) == crate::text::unsigned_upto(
                t.skip(2),
                16,
                255,
            )
            &&& !marked ==> crate::sysinit::i2c_byte(text) == crate::text::unsigned_upto(t, 16, 255)
        }),
{
    reveal_strlit("0x");
    reveal_strlit("0X");
}

/// A root is the first of its name; the default one is the adapter that stands
/// for it, where one does.
pub proof fn lemma_roots_are_named(
    i2c: crate::schema::I2cSection,
    entries: Seq<crate::sysinit::Entry>,
    name: Seq<char>,
    n: int,
)
    requires
        0 <= n,
    ensures
        match crate::sysinit::named_root(i2c, name, n) {
            Some(i) => n <= i < i2c.roots@.len() && i2c.roots@[i].name@ == name && forall|j: int|
                n <= j < i ==> (#[trigger] i2c.roots@[j]).name@ != name,
            None => forall|j: int|
                n <= j < i2c.roots@.len() ==> (#[trigger] i2c.roots@[j]).name@ != name,
        },
        name == "root"@ && i2c.root_adapter is Some
            ==> crate::sysinit::manifest_root(i2c, entries, name) == crate::sysinit::adapter_at(
            entries,
            i2c.root_adapter->0@,
            0,
        ),
        !(name == "root"@ && i2c.root_adapter is Some) ==> {
            let i = crate::sysinit::named_root(i2c, name, 0);
            &&& i is None ==> crate::sysinit::manifest_root(i2c, entries, name) is None
            &&& i matches Some(k) ==> crate::sysinit::manifest_root(i2c, entries, name)
                == crate::sysinit::adapter_at(
                entries,
                i2c.roots@[k].adapter@,
                i2c.roots@[k].instance,
            )
        },
    decreases i2c.roots@.len() - n,
{
    if n < i2c.roots@.len() && i2c.roots@[n].name@ != name {
        lemma_roots_are_named(i2c, entries, name, n + 1);
    }
}

// ------------------------------------------------------------ requests

/// An instance has the VLANs that were asked for it last.
pub proof fn lemma_instances_are_asked(
    instances: Seq<crate::requests::MstInstanceRequest>,
    n: int,
    instance: u8,
)
    requires
        0 < n <= instances.len(),
    ensures
        ({
            let r = crate::requests::instances_map(instances, n);
            let had = crate::requests::instances_map(instances, n - 1);
            let last = instances[n - 1];
            &&& crate::requests::instances_map(instances, 0).dom().len() == 0
            &&& last.instance == instance ==> r.dom().contains(instance) && r[instance]
                == crate::topology::tagged_vlans(last.vlans@, last.vlans@.len() as int)
            &&& last.instance <= 0xff && last.instance != instance ==> r.dom().contains(instance)
                == had.dom().contains(instance) && (had.dom().contains(instance) ==> r[instance]
                == had[instance])
        }),
{
}

/// The length of a TLV is its low nine bits.
pub proof fn lemma_tlv_lengths(len: nat)
    ensures
        len < 512 ==> crate::lldp::tlv_len(len) == len,
        512 <= len < 1024 ==> crate::lldp::tlv_len(len) == len - 512,
        len <= 0xffff ==> 0 <= crate::lldp::tlv_len(len) < 512 && (len
            - crate::lldp::tlv_len(len)) % 512 == 0,
{
}

// ------------------------------------------------------------ counters

/// A VLAN that was never counted has counted nothing; the others what they did.
pub proof fn lemma_counters_start_at_nothing(
    dhcp: Map<u16, crate::snoopsec::DhcpVlanStats>,
    arp: Map<u16, crate::snoopsec::DaiVlanStats>,
    relay: Map<u16, RelayVlanStats>,
    vlan: u16,
)
    ensures
        dhcp.dom().contains(vlan) ==> crate::snoopsec::dhcp_at(dhcp, vlan) == dhcp[vlan],
        !dhcp.dom().contains(vlan) ==> crate::snoopsec::dhcp_at(dhcp, vlan).packets == 0
            && crate::snoopsec::dhcp_at(dhcp, vlan).dropped == 0,
        arp.dom().contains(vlan) ==> crate::snoopsec::arp_at(arp, vlan) == arp[vlan],
        !arp.dom().contains(vlan) ==> {
            let c = crate::snoopsec::arp_at(arp, vlan);
            c.forwarded == 0 && c.dropped == 0 && c.bad_binding == 0 && c.bad_src_mac == 0
        },
        relay.dom().contains(vlan) ==> crate::snoopsec::relay_at(relay, vlan) == relay[vlan],
        !relay.dom().contains(vlan) ==> {
            let c = crate::snoopsec::relay_at(relay, vlan);
            c.to_server == 0 && c.to_client == 0 && c.dropped == 0
        },
{
}

/// The length of a datagram is the payload and both headers, in sixteen bits.
pub proof fn lemma_datagram_lengths(len: int)
    requires
        0 <= len,
    ensures
        ({
            let f = crate::dhcp::reply_ip_front(len);
            let n = f[2] * 0x100 + f[3];
            &&& len + 28 < 0x1_0000 ==> n == len + 28
            &&& 0x1_0000 <= len + 28 < 0x2_0000 ==> n == len + 28 - 0x1_0000
            &&& f.len() == 10 && f[0] == 0x45 && f[8] == 64 && f[9] == 17
        }),
{
    let n = ((len + 28) % 0x1_0000) as u16;
    assert(crate::bytes::be16(n)[0] * 0x100 + crate::bytes::be16(n)[1] == n);
}

// ------------------------------------------------------------ messages

/// A group of ports is refused without lanes for a port, and where its lanes
/// are none or do not come out even; the message names the group.
pub proof fn lemma_groups_are_refused(g: crate::schema::PortGroup)
    ensures
        ({
            let e = crate::platform::group_error(g);
            let even = g.lanes@.len() > 0 && g.lanes@.len() % g.lanes_per_port as nat == 0;
            let named = "group "@ + crate::text::quoted_text(g.prefix@);
            &&& e is None <==> g.lanes_per_port > 0 && even
            &&& g.lanes_per_port == 0 ==> e == Some(named + ": lanes_per_port must be >= 1"@)
            &&& g.lanes_per_port > 0 && !even ==> e is Some && crate::text::begins_with(
                e->0,
                named + ": lanes length "@ + crate::text::decimal_text(g.lanes@.len()),
            ) && crate::text::finishes_with(
                e->0,
                " is not a positive multiple of lanes_per_port "@ + crate::text::decimal_text(
                    g.lanes_per_port as nat,
                ),
            )
        }),
{
    let named = "group "@ + crate::text::quoted_text(g.prefix@);
    let count = crate::text::decimal_text(g.lanes@.len());
    let words = " is not a positive multiple of lanes_per_port "@;
    let lanes = crate::text::decimal_text(g.lanes_per_port as nat);
    let front = named + ": lanes length "@ + count;
    let whole = named + ": lanes length "@ + (count + words + lanes);
    crate::laws::basics::lemma_ends_of_texts(front, words + lanes, whole);
    assert(whole =~= front + (words + lanes));
}

/// A failed hook is told by its name, its stage and its trouble; a finding by
/// its severity.
pub proof fn lemma_troubles_are_told(
    e: crate::quirks::QuirkError,
    message: Seq<char>,
    module: Seq<char>,
    detail: Seq<char>,
    bus: u32,
)
    ensures
        crate::quirks::quirk_text(e) == "quirk "@ + e.quirk@ + " failed during "@ + e.stage@ + ": "@
            + e.message@,
        crate::lint::finding_text(
            crate::lint::Finding { severity: crate::lint::Severity::Error, message },
        ) == "error"@ + ": "@ + message,
        crate::lint::finding_text(
            crate::lint::Finding { severity: crate::lint::Severity::Warning, message },
        ) == "warning"@ + ": "@ + message,
        crate::sysinit::error_text(crate::sysinit::ErrorModel::Modprobe { module, detail })
            == "modprobe "@ + module + " failed: "@ + detail,
        crate::sysinit::error_text(
            crate::sysinit::ErrorModel::I2c { action: module, bus, detail },
        ) == "i2c "@ + module + " on bus "@ + crate::text::decimal_text(bus as nat) + ": "@
            + detail,
        crate::sysinit::error_text(
            crate::sysinit::ErrorModel::Spawn { command: module, source: detail },
        ) == "spawning "@ + module + ": "@ + detail,
        crate::sysinit::error_text(crate::sysinit::ErrorModel::RootAdapterNotFound(module))
            == "no i2c adapter matching "@ + crate::text::quoted_text(module)
            + " found (platform modules loaded?)"@,
{
}

} // verus!
