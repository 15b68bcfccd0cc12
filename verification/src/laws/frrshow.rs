//! Laws of what the routing daemons tell.

use vstd::prelude::*;

use crate::frrshow::{
    BgpNeighborDetail, BgpPeerState, BgpRibEntry, BgpState, OspfArea, OspfInterfaceState,
    OspfNeighborState, OspfState, VrrpGroupState,
};
use crate::json::Json;

verus! {

// ------------------------------------------------------------- documents

/// What stands under a key is the first member with that name; nothing stands
/// under a key that no member has, or in what is no object.
pub proof fn lemma_members_are_found(members: Seq<(String, Json)>, key: Seq<char>, i: int)
    ensures
        0 <= i < members.len() && members[i].0@ == key && (forall|j: int|
            0 <= j < i ==> (#[trigger] members[j]).0@ != key) ==> crate::json::find_member(
            members,
            key,
        ) == Some(members[i].1),
        (forall|j: int| 0 <= j < members.len() ==> (#[trigger] members[j]).0@ != key)
            ==> crate::json::find_member(members, key) is None,
    decreases members.len(),
{
    if members.len() > 0 {
        let rest = members.skip(1);
        lemma_members_are_found(rest, key, i - 1);
        if 0 < i < members.len() && members[i].0@ == key && (forall|j: int|
            0 <= j < i ==> (#[trigger] members[j]).0@ != key) {
            assert(members[0].0@ != key);
            assert(rest[i - 1] == members[i]);
            assert forall|j: int| 0 <= j < i - 1 implies (#[trigger] rest[j]).0@ != key by {
                assert(rest[j] == members[j + 1]);
            }
        }
        if forall|j: int| 0 <= j < members.len() ==> (#[trigger] members[j]).0@ != key {
            assert(members[0].0@ != key);
            assert forall|j: int| 0 <= j < rest.len() implies (#[trigger] rest[j]).0@ != key by {
                assert(rest[j] == members[j + 1]);
            }
        }
    }
}

/// A member reads as a text, a number or a truth value only where it is one;
/// else as nothing, 0 or what is given.
pub proof fn lemma_members_are_read(v: Json, key: Seq<char>, otherwise: bool)
    ensures
        !(v is Object) ==> crate::json::member(v, key) is None,
        v matches Json::Object(m) ==> crate::json::member(v, key) == crate::json::find_member(
            m@,
            key,
        ),
        crate::json::member(v, key) matches Some(Json::Text(t)) ==> crate::json::text_member(
            v,
            key,
        ) == t@,
        !(crate::json::member(v, key) is Some && crate::json::member(v, key)->0 is Text)
            ==> crate::json::text_member(v, key).len() == 0,
        crate::json::member(v, key) matches Some(Json::Number(Some(n)))
            ==> crate::json::count_member(v, key) == n && crate::json::number_member(v, key)
            == Some(n),
        !(crate::json::member(v, key) is Some && crate::json::member(v, key)->0 is Number)
            ==> crate::json::count_member(v, key) == 0 && crate::json::number_member(v, key)
            is None,
        crate::json::member(v, key) matches Some(Json::Bool(b)) ==> crate::json::flag_member(
            v,
            key,
            otherwise,
        ) == b,
        !(crate::json::member(v, key) is Some && crate::json::member(v, key)->0 is Bool)
            ==> crate::json::flag_member(v, key, otherwise) == otherwise,
{
}

/// A daemon that does not answer is not running, and an answer that is no
/// document is unexpected.
pub proof fn lemma_answers_are_documents(protocol: Seq<char>, output: Option<Seq<char>>)
    ensures
        output is None ==> crate::frrshow::vtysh_document(protocol, output) == Err::<
            Json,
            Seq<char>,
        >(protocol + " is not running"@),
        output matches Some(t) ==> (crate::json::json_document(crate::text::trim_text(t)) matches Some(
            v,
        ) ==> crate::frrshow::vtysh_document(protocol, output) == Ok::<Json, Seq<char>>(v)),
        output matches Some(t) ==> (crate::json::json_document(crate::text::trim_text(t)) is None
            ==> crate::frrshow::vtysh_document(protocol, output) == Err::<Json, Seq<char>>(
            "unexpected vtysh output"@,
        )),
{
}

/// The entries of an object of lists are those of each list under its name, in
/// order.
pub proof fn lemma_lists_are_walked(members: Seq<(String, Json)>, n: int, k: int)
    requires
        0 < n <= members.len(),
    ensures
        ({
            let front = crate::frrshow::listed(members, n - 1);
            let all = crate::frrshow::listed(members, n);
            let items = crate::json::items_of(members[n - 1].1);
            &&& crate::frrshow::listed(members, 0).len() == 0
            &&& all.len() == front.len() + items.len()
            &&& all.take(front.len() as int) == front
            &&& 0 <= k < items.len() ==> all[front.len() + k] == (members[n - 1].0@, items[k])
        }),
{
    let front = crate::frrshow::listed(members, n - 1);
    let all = crate::frrshow::listed(members, n);
    assert(all.take(front.len() as int) =~= front);
}

// ------------------------------------------------------------------ OSPF

/// An area is told by its number of interfaces.
pub proof fn lemma_areas_are_told(a: OspfArea, id: Seq<char>, v: Json)
    requires
        crate::frrshow::is_area(a, id, v),
    ensures
        a.id@ == id,
        crate::json::count_member(v, "areaIfTotalCounter"@) <= u32::MAX ==> a.interfaces
            == crate::json::count_member(v, "areaIfTotalCounter"@),
{
}

/// An OSPF neighbor is told by its fields, its state and its interface up to
/// what follows them.
pub proof fn lemma_ospf_neighbors_are_told(
    n: OspfNeighborState,
    router_id: Seq<char>,
    v: Json,
)
    requires
        crate::frrshow::is_ospf_neighbor(n, router_id, v),
    ensures
        n.router_id@ == router_id,
        crate::json::count_member(v, "nbrPriority"@) <= u32::MAX ==> n.priority
            == crate::json::count_member(v, "nbrPriority"@),
        n.state@ == crate::text::head_text(crate::json::text_member(v, "nbrState"@), '/'),
        n.dead_time_msecs == crate::json::count_member(v, "routerDeadIntervalTimerDueMsec"@),
        n.address@ == crate::json::text_member(v, "ifaceAddress"@),
        n.interface@ == crate::text::head_text(crate::json::text_member(v, "ifaceName"@), ':'),
{
}

/// An OSPF interface is told by its fields; the hello interval is told in
/// seconds.
pub proof fn lemma_ospf_interfaces_are_told(s: OspfInterfaceState, name: Seq<char>, v: Json)
    requires
        crate::frrshow::is_ospf_interface(s, name, v),
    ensures
        s.name@ == name,
        s.up == crate::json::flag_member(v, "ifUp"@, false),
        s.address@ == crate::json::text_member(v, "ipAddress"@) + "/"@ + crate::text::decimal_text(
            crate::json::count_member(v, "ipAddressPrefixlen"@) as nat,
        ),
        s.area@ == crate::json::text_member(v, "area"@),
        s.router_id@ == crate::json::text_member(v, "routerId"@),
        s.network_type@ == crate::json::text_member(v, "networkType"@),
        crate::json::count_member(v, "cost"@) <= u32::MAX ==> s.cost == crate::json::count_member(
            v,
            "cost"@,
        ),
        s.state@ == crate::json::text_member(v, "state"@),
        crate::json::count_member(v, "priority"@) <= u32::MAX ==> s.priority
            == crate::json::count_member(v, "priority"@),
        s.dr_id@ == crate::json::text_member(v, "drId"@),
        s.dr_address@ == crate::json::text_member(v, "drAddress"@),
        crate::json::count_member(v, "timerMsecs"@) / 1000 <= u32::MAX ==> s.hello_interval
            == crate::json::count_member(v, "timerMsecs"@) / 1000,
        crate::json::count_member(v, "timerDeadSecs"@) <= u32::MAX ==> s.dead_interval
            == crate::json::count_member(v, "timerDeadSecs"@),
        crate::json::count_member(v, "nbrCount"@) <= u32::MAX ==> s.neighbors
            == crate::json::count_member(v, "nbrCount"@),
        crate::json::count_member(v, "nbrAdjacentCount"@) <= u32::MAX ==> s.adjacent
            == crate::json::count_member(v, "nbrAdjacentCount"@),
{
}

/// OSPF is told as a whole: the router, its runs, its areas, its neighbors and
/// its interfaces, all of them, in order.
pub proof fn lemma_ospf_is_told(
    s: OspfState,
    overview: Json,
    neighbors: Json,
    interfaces: Json,
    i: int,
)
    requires
        crate::frrshow::is_ospf_state(s, overview, neighbors, interfaces),
    ensures
        s.router_id@ == crate::json::text_member(overview, "routerId"@),
        crate::json::count_member(overview, "spfExecutedCounter"@) <= u32::MAX ==> s.spf_runs
            == crate::json::count_member(overview, "spfExecutedCounter"@),
        s.areas@.len() == crate::json::members_at(overview, "areas"@).len(),
        0 <= i < s.areas@.len() ==> crate::frrshow::is_area(
            s.areas@[i],
            crate::json::members_at(overview, "areas"@)[i].0@,
            crate::json::members_at(overview, "areas"@)[i].1,
        ),
        s.interfaces@.len() == crate::json::members_at(interfaces, "interfaces"@).len(),
        0 <= i < s.interfaces@.len() ==> crate::frrshow::is_ospf_interface(
            s.interfaces@[i],
            crate::json::members_at(interfaces, "interfaces"@)[i].0@,
            crate::json::members_at(interfaces, "interfaces"@)[i].1,
        ),
        ({
            let members = crate::json::members_at(neighbors, "neighbors"@);
            let all = crate::frrshow::listed(members, members.len() as int);
            &&& s.neighbors@.len() == all.len()
            &&& 0 <= i < s.neighbors@.len() ==> crate::frrshow::is_ospf_neighbor(
                s.neighbors@[i],
                all[i].0,
                all[i].1,
            )
        }),
{
}

// ------------------------------------------------------------------- BGP

/// A BGP peer is told by its fields; how many prefixes came is known of an
/// established one only.
pub proof fn lemma_peers_are_told(p: BgpPeerState, ip: Seq<char>, v: Json)
    requires
        crate::frrshow::is_peer(p, ip, v),
    ensures
        p.ip@ == ip,
        crate::json::count_member(v, "version"@) <= u32::MAX ==> p.version
            == crate::json::count_member(v, "version"@),
        crate::json::count_member(v, "remoteAs"@) <= u32::MAX ==> p.remote_as
            == crate::json::count_member(v, "remoteAs"@),
        p.msg_rcvd == crate::json::count_member(v, "msgRcvd"@),
        p.msg_sent == crate::json::count_member(v, "msgSent"@),
        crate::json::count_member(v, "inq"@) <= u32::MAX ==> p.in_q == crate::json::count_member(
            v,
            "inq"@,
        ),
        crate::json::count_member(v, "outq"@) <= u32::MAX ==> p.out_q == crate::json::count_member(
            v,
            "outq"@,
        ),
        p.up_down@ == crate::json::text_member(v, "peerUptime"@),
        p.state@ == crate::json::text_member(v, "state"@),
        p.state@ != "Established"@ ==> p.pfx_rcvd == -1,
        p.state@ == "Established"@ && crate::json::count_member(v, "pfxRcd"@) <= i64::MAX
            ==> p.pfx_rcvd == crate::json::count_member(v, "pfxRcd"@),
{
}

/// A BGP neighbor in detail is told by its fields, its message counts and what
/// its IPv4 family says.
pub proof fn lemma_details_are_told(d: BgpNeighborDetail, neighbor: Seq<char>, entry: Json)
    requires
        crate::frrshow::is_detail(d, neighbor, entry),
    ensures
        ({
            let stats = crate::json::part_member(entry, "messageStats"@);
            let family = crate::json::part_member(
                crate::json::part_member(entry, "addressFamilyInfo"@),
                "ipv4Unicast"@,
            );
            &&& d.ip@ == neighbor
            &&& crate::json::count_member(entry, "remoteAs"@) <= u32::MAX ==> d.remote_as
                == crate::json::count_member(entry, "remoteAs"@)
            &&& d.description@ == crate::json::text_member(entry, "nbrDesc"@)
            &&& d.state@ == crate::json::text_member(entry, "bgpState"@)
            &&& d.uptime@ == crate::json::text_member(entry, "bgpTimerUpString"@)
            &&& d.msg_rcvd == crate::json::count_member(stats, "totalRecv"@)
            &&& d.msg_sent == crate::json::count_member(stats, "totalSent"@)
            &&& crate::json::count_member(entry, "prefixReceivedCount"@) <= i64::MAX
                ==> d.prefixes_received == crate::json::count_member(
                entry,
                "prefixReceivedCount"@,
            )
            &&& crate::json::count_member(family, "acceptedPrefixCounter"@) <= i64::MAX
                ==> d.prefixes_accepted == crate::json::count_member(
                family,
                "acceptedPrefixCounter"@,
            )
            &&& crate::json::count_member(family, "sentPrefixCounter"@) <= i64::MAX
                ==> d.prefixes_advertised == crate::json::count_member(
                family,
                "sentPrefixCounter"@,
            )
            &&& d.next_hop_self == crate::json::flag_member(family, "routerAlwaysNextHop"@, false)
            &&& crate::json::count_member(entry, "externalBgpNbrMaxHopsAway"@) <= u32::MAX
                ==> d.ebgp_multihop == crate::json::count_member(
                entry,
                "externalBgpNbrMaxHopsAway"@,
            )
        }),
{
}

/// A BGP path is told with its first next hop, a dash where it has none; its
/// metric, a dash where it has none; its preference, 100 where it has none; and
/// its AS path with a letter for its origin.
pub proof fn lemma_paths_are_told(e: BgpRibEntry, network: Seq<char>, path: Json)
    requires
        crate::frrshow::is_rib_entry(e, network, path),
    ensures
        ({
            let hops = crate::json::items_of(crate::json::part_member(path, "nexthops"@));
            let origin = crate::json::text_member(path, "origin"@);
            let letter = if origin == "IGP"@ {
                "i"@
            } else if origin == "EGP"@ {
                "e"@
            } else {
                "?"@
            };
            let through = crate::json::text_member(path, "path"@);
            &&& e.network@ == network
            &&& hops.len() == 0 ==> e.next_hop@ == "-"@
            &&& hops.len() > 0 && crate::json::text_member(hops[0], "ip"@).len() == 0
                ==> e.next_hop@ == "-"@
            &&& hops.len() > 0 && crate::json::text_member(hops[0], "ip"@).len() > 0
                ==> e.next_hop@ == crate::json::text_member(hops[0], "ip"@)
            &&& crate::json::number_member(path, "metric"@) is None ==> e.metric@ == "-"@
            &&& crate::json::number_member(path, "metric"@) matches Some(n) ==> e.metric@
                == crate::text::decimal_text(n as nat)
            &&& crate::json::number_member(path, "locPrf"@) is None ==> e.loc_pref@ == "100"@
            &&& crate::json::number_member(path, "locPrf"@) matches Some(n) ==> e.loc_pref@
                == crate::text::decimal_text(n as nat)
            &&& through.len() == 0 ==> e.path@ == letter
            &&& through.len() > 0 ==> e.path@ == through + " "@ + letter
            &&& e.valid == crate::json::flag_member(path, "valid"@, false)
            &&& e.best == crate::json::flag_member(path, "bestpath"@, false)
        }),
{
}

/// BGP is told as a whole, by its IPv4 part where there is one.
pub proof fn lemma_bgp_is_told(s: BgpState, document: Json, i: int)
    requires
        crate::frrshow::is_bgp_summary(s, document),
    ensures
        ({
            let part = if crate::json::member(document, "ipv4Unicast"@) is Some {
                crate::json::member(document, "ipv4Unicast"@)->0
            } else {
                document
            };
            &&& s.router_id@ == crate::json::text_member(part, "routerId"@)
            &&& crate::json::count_member(part, "as"@) <= u32::MAX ==> s.as_number
                == crate::json::count_member(part, "as"@)
            &&& s.peers@.len() == crate::json::members_at(part, "peers"@).len()
            &&& 0 <= i < s.peers@.len() ==> crate::frrshow::is_peer(
                s.peers@[i],
                crate::json::members_at(part, "peers"@)[i].0@,
                crate::json::members_at(part, "peers"@)[i].1,
            )
        }),
{
}

// ------------------------------------------------------------------ VRRP

/// A VRRP group is told by its fields; times are told in milliseconds out of
/// hundredths, and its hardware address ends in its number.
pub proof fn lemma_groups_are_told(g: VrrpGroupState, v: Json)
    requires
        crate::frrshow::is_group(g, v),
    ensures
        ({
            let v4 = crate::json::part_member(v, "v4"@);
            &&& g.interface@ == crate::json::text_member(v, "interface"@)
            &&& crate::json::count_member(v, "vrid"@) <= u32::MAX ==> g.group
                == crate::json::count_member(v, "vrid"@)
            &&& crate::json::count_member(v, "priority"@) <= u32::MAX ==> g.priority
                == crate::json::count_member(v, "priority"@)
            &&& crate::json::count_member(v4, "effectivePriority"@) <= u32::MAX
                ==> g.effective_priority == crate::json::count_member(v4, "effectivePriority"@)
            &&& crate::json::count_member(v, "advertisementIntervalCs"@) <= u32::MAX
                ==> g.advertisement_interval_ms == crate::json::count_member(
                v,
                "advertisementIntervalCs"@,
            ) * 10
            &&& g.preempt == crate::json::flag_member(v, "preemptMode"@, true)
            &&& g.state@ == crate::json::text_member(v4, "status"@)
            &&& g.virtual_mac@ == "00:00:5e:00:01:"@ + crate::text::hex_text(g.group as nat, 2)
            &&& crate::json::count_member(v4, "skewTimeCs"@) <= u32::MAX ==> g.skew_time_ms
                == crate::json::count_member(v4, "skewTimeCs"@) * 10
            &&& crate::json::count_member(v4, "masterDownIntervalCs"@) <= u32::MAX
                ==> g.master_down_interval_ms == crate::json::count_member(
                v4,
                "masterDownIntervalCs"@,
            ) * 10
            &&& g.seconds_since_transition == crate::json::number_member(
                v4,
                "statusLastChangeSecs"@,
            )
        }),
{
}

/// The addresses of a group are the texts of its list, without their lengths,
/// in order.
pub proof fn lemma_addresses_are_plain(items: Seq<Json>, n: int)
    requires
        0 < n <= items.len(),
    ensures
        crate::frrshow::plain_addresses(items, 0).len() == 0,
        items[n - 1] matches Json::Text(a) ==> crate::frrshow::plain_addresses(items, n)
            == crate::frrshow::plain_addresses(items, n - 1).push(
            crate::text::head_text(a@, '/'),
        ),
        !(items[n - 1] is Text) ==> crate::frrshow::plain_addresses(items, n)
            == crate::frrshow::plain_addresses(items, n - 1),
{
}

} // verus!
