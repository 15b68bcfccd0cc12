//! Laws of configuration requests: which are taken, and what is made of them.

use vstd::prelude::*;

use crate::requests::{
    LagMemberRequest, LagRequest, LldpRequest, MstInstanceRequest, RadiusRequest, SnoopSecRequest,
    SnoopVlanRequest, SnoopingRequest, StaticRequest, StpPortRequest, StpRequest,
};
use crate::snoopsec::Validate;

verus! {

// ------------------------------------------------------------ port channels

/// Is a member request one that can be taken?
pub open spec fn member_is_fine(m: LagMemberRequest) -> bool {
    !(m.mode is Unspecified) && m.port_priority <= 65535
}

proof fn lemma_members(members: Seq<LagMemberRequest>, n: int)
    requires
        0 <= n,
    ensures
        crate::requests::members_error(members, n) is None <==> forall|i: int|
            n <= i < members.len() ==> member_is_fine(#[trigger] members[i]),
    decreases members.len() - n,
{
    if n < members.len() {
        lemma_members(members, n + 1);
        assert(crate::requests::member_error(members[n]) is None <==> member_is_fine(members[n]));
    }
}

/// Is a port channel request one that can be taken: a group from 1 to 64, fine
/// members and a number of links that a byte holds?
pub open spec fn lag_is_fine(lag: LagRequest) -> bool {
    &&& 1 <= lag.group <= 64
    &&& lag.min_links <= 255
    &&& forall|i: int| 0 <= i < lag.members@.len() ==> member_is_fine(#[trigger] lag.members@[i])
}

proof fn lemma_lags(lags: Seq<LagRequest>, n: int)
    requires
        0 <= n,
    ensures
        crate::requests::lags_error(lags, n) is None <==> forall|i: int|
            n <= i < lags.len() ==> lag_is_fine(#[trigger] lags[i]),
    decreases lags.len() - n,
{
    if n < lags.len() {
        lemma_lags(lags, n + 1);
        lemma_members(lags[n].members@, 0);
        assert(crate::requests::lag_error(lags[n]) is None <==> lag_is_fine(lags[n]));
    }
}

/// Port channels are taken where each is fine and the system's priority is one
/// of sixteen bits.
pub proof fn lemma_port_channels_are_taken(system_priority: u32, lags: Seq<LagRequest>)
    ensures
        crate::requests::lag_request_error(system_priority, lags) is None <==> system_priority
            <= 65535 && forall|i: int| 0 <= i < lags.len() ==> lag_is_fine(#[trigger] lags[i]),
{
    lemma_lags(lags, 0);
}

/// Each member of a port channel is taken as it is asked for, with a middle
/// priority where none is; where a port stands twice, the last counts.
pub proof fn lemma_members_are_taken(
    members: Seq<LagMemberRequest>,
    n: int,
    port: Seq<char>,
)
    requires
        0 < n <= members.len(),
        member_is_fine(members[n - 1]),
    ensures
        ({
            let front = crate::requests::members_map(members, n - 1);
            let all = crate::requests::members_map(members, n);
            let m = members[n - 1];
            &&& !crate::requests::members_map(members, 0).dom().contains(port)
            &&& m.port@ == port ==> {
                &&& all.dom().contains(port)
                &&& m.mode is Active ==> all[port].mode is Active
                &&& m.mode is Passive ==> all[port].mode is Passive
                &&& m.mode is On ==> all[port].mode is On
                &&& all[port].rate_fast == m.rate_fast
                &&& m.port_priority == 0 ==> all[port].port_priority == 32768
                &&& m.port_priority != 0 ==> all[port].port_priority == m.port_priority
            }
            &&& m.port@ != port ==> {
                &&& all.dom().contains(port) <==> front.dom().contains(port)
                &&& front.dom().contains(port) ==> all[port] == front[port]
            }
        }),
{
}

/// What a port channel is configured with is what was asked for; it falls back
/// after a minute and a half where no time is given.
pub proof fn lemma_port_channels_are_configured(c: crate::lacp::LagConfig, lag: LagRequest)
    requires
        crate::requests::is_lag(c, lag),
    ensures
        c.group == lag.group,
        c.min_links == lag.min_links,
        lag.fallback is Unspecified ==> c.fallback is None,
        lag.fallback is Static ==> c.fallback == Some(crate::lacp::Fallback::Static),
        lag.fallback is Individual ==> c.fallback == Some(crate::lacp::Fallback::Individual),
        lag.fallback_timeout_secs == 0 ==> c.fallback_timeout == 90_000,
        lag.fallback_timeout_secs != 0 ==> c.fallback_timeout == lag.fallback_timeout_secs * 1000,
{
}

// ----------------------------------------------------------------- LLDP

/// LLDP is taken with an interval of 5 to 300 seconds, 30 where none is given,
/// and a multiplier of 2 to 10, 4 where none is given.
pub proof fn lemma_lldp_is_taken(req: LldpRequest)
    ensures
        crate::requests::lldp_error(req) is None <==> (req.tx_interval == 0 || 5 <= req.tx_interval
            <= 300) && (req.hold_multiplier == 0 || 2 <= req.hold_multiplier <= 10),
{
}

// ---------------------------------------------------------- spanning tree

proof fn lemma_bad_ports(ports: Seq<StpPortRequest>, n: int)
    requires
        0 <= n,
    ensures
        crate::requests::bad_port(ports, n) <==> exists|i: int|
            n <= i < ports.len() && (#[trigger] ports[i]).priority > 255,
    decreases ports.len() - n,
{
    if n < ports.len() {
        lemma_bad_ports(ports, n + 1);
    }
}

proof fn lemma_bad_instances(instances: Seq<MstInstanceRequest>, n: int)
    requires
        0 <= n,
    ensures
        crate::requests::bad_instance(instances, n) <==> exists|i: int|
            n <= i < instances.len() && (#[trigger] instances[i]).instance > 255,
    decreases instances.len() - n,
{
    if n < instances.len() {
        lemma_bad_instances(instances, n + 1);
    }
}

/// Spanning tree is taken in a mode that there is, with numbers that fit their
/// fields.
pub proof fn lemma_spanning_tree_is_taken(req: StpRequest)
    ensures
        crate::requests::stp_error(req) is None <==> {
            &&& req.mode@ == "mstp"@ || req.mode@ == ""@ || req.mode@ == "rstp"@ || req.mode@
                == "none"@
            &&& forall|i: int| 0 <= i < req.ports@.len() ==> (#[trigger] req.ports@[i]).priority
                <= 255
            &&& forall|i: int|
                0 <= i < req.instances@.len() ==> (#[trigger] req.instances@[i]).instance <= 255
            &&& req.priority <= 65535
            &&& req.hello_time <= 255
            &&& req.max_age <= 255
            &&& req.forward_time <= 255
            &&& req.mst_revision <= 65535
        },
{
    lemma_bad_ports(req.ports@, 0);
    lemma_bad_instances(req.instances@, 0);
}

/// The words for the modes.
pub proof fn lemma_mode_words()
    ensures
        crate::requests::stp_mode_of("mstp"@) == Some(crate::stp::Mode::Mstp),
        crate::requests::stp_mode_of(Seq::empty()) == Some(crate::stp::Mode::Mstp),
        crate::requests::stp_mode_of("rstp"@) == Some(crate::stp::Mode::Rstp),
        crate::requests::stp_mode_of("none"@) == Some(crate::stp::Mode::Off),
{
    reveal_strlit("mstp");
    reveal_strlit("rstp");
    reveal_strlit("none");
    reveal_strlit("");
    assert(""@ =~= Seq::<char>::empty());
    assert("mstp"@[0] != "rstp"@[0]);
    assert("mstp"@[0] != "none"@[0]);
    assert("rstp"@[0] != "none"@[0]);
}

/// Each port of spanning tree is taken as it is asked for: a cost of 0 is
/// none, and a priority of 0 the middle one; where a port stands twice, the
/// last counts.
pub proof fn lemma_tree_ports_are_taken(
    ports: Seq<StpPortRequest>,
    n: int,
    port: Seq<char>,
)
    requires
        0 < n <= ports.len(),
        ports[n - 1].priority <= 255,
    ensures
        ({
            let front = crate::requests::stp_ports_map(ports, n - 1);
            let all = crate::requests::stp_ports_map(ports, n);
            let p = ports[n - 1];
            &&& !crate::requests::stp_ports_map(ports, 0).dom().contains(port)
            &&& p.port@ == port ==> {
                &&& all.dom().contains(port)
                &&& all[port].portfast == p.portfast
                &&& all[port].bpduguard == p.bpduguard
                &&& p.cost == 0 ==> all[port].cost is None
                &&& p.cost != 0 ==> all[port].cost == Some(p.cost)
                &&& p.priority == 0 ==> all[port].priority == 128
                &&& p.priority != 0 ==> all[port].priority == p.priority
            }
            &&& p.port@ != port ==> {
                &&& all.dom().contains(port) <==> front.dom().contains(port)
                &&& front.dom().contains(port) ==> all[port] == front[port]
            }
        }),
{
}

// ------------------------------------------------------------- snooping

/// Is a VLAN request of snooping one that can be taken?
pub open spec fn vlan_is_fine(v: SnoopVlanRequest) -> bool {
    1 <= v.vlan <= 4094 && (v.querier_address@.len() > 0 ==> crate::ip::ip_value(
        v.querier_address@,
    ) is Some)
}

proof fn lemma_vlans(vlans: Seq<SnoopVlanRequest>, n: int)
    requires
        0 <= n,
    ensures
        crate::requests::snoop_vlans_error(vlans, n) is None <==> forall|i: int|
            n <= i < vlans.len() ==> vlan_is_fine(#[trigger] vlans[i]),
    decreases vlans.len() - n,
{
    if n < vlans.len() {
        lemma_vlans(vlans, n + 1);
        assert(crate::requests::snoop_vlan_error(vlans[n]) is None <==> vlan_is_fine(vlans[n]));
    }
}

/// Snooping is taken for a family that there is, with fine VLANs and a
/// robustness that a byte holds.
pub proof fn lemma_snooping_is_taken(req: SnoopingRequest)
    ensures
        crate::requests::snooping_error(req) is None <==> (req.family@ == "igmp"@ || req.family@
            == ""@ || req.family@ == "mld"@) && req.robustness <= 255 && forall|i: int|
            0 <= i < req.vlans@.len() ==> vlan_is_fine(#[trigger] req.vlans@[i]),
{
    lemma_vlans(req.vlans@, 0);
}

/// The words for the families.
pub proof fn lemma_family_words()
    ensures
        crate::requests::family_of("igmp"@) == Some(crate::snoop::Family::Igmp),
        crate::requests::family_of(Seq::empty()) == Some(crate::snoop::Family::Igmp),
        crate::requests::family_of("mld"@) == Some(crate::snoop::Family::Mld),
{
    reveal_strlit("igmp");
    reveal_strlit("mld");
    reveal_strlit("");
    assert(""@ =~= Seq::<char>::empty());
    assert("igmp"@.len() != "mld"@.len());
}

proof fn lemma_last_vlan(vlans: Seq<SnoopVlanRequest>, n: int, id: u16)
    requires
        0 <= n <= vlans.len(),
    ensures
        match crate::requests::last_vlan(vlans, n, id) {
            Some(i) => 0 <= i < n && vlans[i].vlan == id && forall|j: int|
                i < j < n ==> (#[trigger] vlans[j]).vlan != id,
            None => forall|j: int| 0 <= j < n ==> (#[trigger] vlans[j]).vlan != id,
        },
    decreases n,
{
    if n > 0 && vlans[n - 1].vlan != id {
        lemma_last_vlan(vlans, n - 1, id);
    }
}

/// A VLAN is configured where it is asked for, as it is asked for; where it
/// stands twice, the last counts.
pub proof fn lemma_snooped_vlans_are_configured(
    m: Map<u16, crate::snoop::VlanConfig>,
    vlans: Seq<SnoopVlanRequest>,
    id: u16,
    i: int,
)
    requires
        crate::requests::configures(m, vlans, vlans.len() as int, id),
    ensures
        m.dom().contains(id) <==> exists|j: int|
            0 <= j < vlans.len() && (#[trigger] vlans[j]).vlan == id,
        0 <= i < vlans.len() && vlans[i].vlan == id && (forall|j: int|
            i < j < vlans.len() ==> (#[trigger] vlans[j]).vlan != id) ==> {
            &&& m[id].disabled == vlans[i].disabled
            &&& m[id].fast_leave == vlans[i].fast_leave
            &&& m[id].querier == vlans[i].querier
            &&& vlans[i].querier_address@.len() == 0 ==> m[id].querier_address is None
            &&& vlans[i].querier_address@.len() > 0 ==> m[id].querier_address
                == crate::ip::ip_value(vlans[i].querier_address@)
            &&& m[id].static_mrouters@ == vlans[i].mrouters@
        },
{
    lemma_last_vlan(vlans, vlans.len() as int, id);
    if let Some(k) = crate::requests::last_vlan(vlans, vlans.len() as int, id) {
        assert(vlans[k].vlan == id);
        if k < i < vlans.len() {
            assert(vlans[i].vlan != id);
        }
    }
}

// -------------------------------------------------------- authentication

/// Is a server request one that can be taken?
pub open spec fn server_is_fine(s: RadiusRequest) -> bool {
    s.port <= 65535 && s.timeout_secs <= 65535 && s.retransmit <= 65535
}

/// Authentication is taken where the numbers of each server fit their fields.
pub proof fn lemma_servers_are_taken(servers: Seq<RadiusRequest>, n: int)
    requires
        0 <= n,
    ensures
        crate::requests::dot1x_error(servers, n) is None <==> forall|i: int|
            n <= i < servers.len() ==> server_is_fine(#[trigger] servers[i]),
    decreases servers.len() - n,
{
    if n < servers.len() {
        lemma_servers_are_taken(servers, n + 1);
        assert(crate::requests::radius_error(servers[n]) is None <==> server_is_fine(servers[n]));
    }
}

/// A server is configured as it is asked for.
pub proof fn lemma_servers_are_configured(s: RadiusRequest)
    requires
        server_is_fine(s),
    ensures
        crate::requests::radius_of(s).ip == s.ip@,
        crate::requests::radius_of(s).key == s.key@,
        crate::requests::radius_of(s).port == s.port,
        crate::requests::radius_of(s).timeout == s.timeout_secs,
        crate::requests::radius_of(s).retransmit == s.retransmit,
{
}

// ------------------------------------------------------------- the guard

proof fn lemma_guarded_vlans(vlans: Seq<u32>, n: int)
    requires
        0 <= n,
    ensures
        crate::requests::vlans_error(vlans, n) is None <==> forall|i: int|
            n <= i < vlans.len() ==> 1 <= #[trigger] vlans[i] <= 4094,
    decreases vlans.len() - n,
{
    if n < vlans.len() {
        lemma_guarded_vlans(vlans, n + 1);
    }
}

proof fn lemma_checks(words: Seq<Seq<char>>, n: int)
    requires
        0 <= n,
    ensures
        crate::requests::checks_error(words, n) is None <==> forall|i: int|
            n <= i < words.len() ==> (#[trigger] words[i] == "src-mac"@ || words[i] == "dst-mac"@
                || words[i] == "ip"@),
    decreases words.len() - n,
{
    if n < words.len() {
        lemma_checks(words, n + 1);
    }
}

/// Is a fixed binding one that can be taken?
pub open spec fn binding_is_fine(b: StaticRequest) -> bool {
    crate::ip::v4_value(b.address@) is Some && 1 <= b.vlan <= 4094
}

proof fn lemma_bindings(list: Seq<StaticRequest>, n: int)
    requires
        0 <= n,
    ensures
        crate::requests::statics_error(list, n) is None <==> forall|i: int|
            n <= i < list.len() ==> binding_is_fine(#[trigger] list[i]),
    decreases list.len() - n,
{
    if n < list.len() {
        lemma_bindings(list, n + 1);
        assert(crate::requests::static_error(list[n]) is None <==> binding_is_fine(list[n]));
    }
}

/// The guard is taken with VLANs that there can be, checks that there are, and
/// bindings of IPv4 addresses.
pub proof fn lemma_guards_are_taken(req: SnoopSecRequest)
    ensures
        crate::requests::snoop_sec_error(req) is None <==> {
            &&& forall|i: int|
                0 <= i < req.dhcp_vlans@.len() ==> 1 <= #[trigger] req.dhcp_vlans@[i] <= 4094
            &&& forall|i: int|
                0 <= i < req.arp_vlans@.len() ==> 1 <= #[trigger] req.arp_vlans@[i] <= 4094
            &&& forall|i: int|
                0 <= i < req.validate@.len() ==> ((#[trigger] req.validate@[i])@ == "src-mac"@
                    || req.validate@[i]@ == "dst-mac"@ || req.validate@[i]@ == "ip"@)
            &&& forall|i: int|
                0 <= i < req.static_bindings@.len() ==> binding_is_fine(
                    #[trigger] req.static_bindings@[i],
                )
        },
{
    lemma_guarded_vlans(req.dhcp_vlans@, 0);
    lemma_guarded_vlans(req.arp_vlans@, 0);
    let words = req.validate.deep_view();
    lemma_checks(words, 0);
    lemma_bindings(req.static_bindings@, 0);
    assert forall|i: int| 0 <= i < req.validate@.len() implies words[i] == (
    #[trigger] req.validate@[i])@ by {}
    if forall|i: int|
        0 <= i < words.len() ==> (#[trigger] words[i] == "src-mac"@ || words[i] == "dst-mac"@
            || words[i] == "ip"@) {
        assert forall|i: int| 0 <= i < req.validate@.len() implies (
        (#[trigger] req.validate@[i])@ == "src-mac"@ || req.validate@[i]@ == "dst-mac"@
            || req.validate@[i]@ == "ip"@) by {
            assert(words[i] == req.validate@[i]@);
        }
    }
}

/// The words for the checks.
pub proof fn lemma_check_words()
    ensures
        crate::requests::check_of("src-mac"@) == Some(Validate::SrcMac),
        crate::requests::check_of("dst-mac"@) == Some(Validate::DstMac),
        crate::requests::check_of("ip"@) == Some(Validate::Ip),
{
    reveal_strlit("src-mac");
    reveal_strlit("dst-mac");
    reveal_strlit("ip");
    assert("src-mac"@[0] != "dst-mac"@[0]);
    assert("src-mac"@.len() != "ip"@.len());
    assert("dst-mac"@.len() != "ip"@.len());
}

proof fn lemma_last_binding(list: Seq<StaticRequest>, n: int, mac: Seq<char>, vlan: u16)
    requires
        0 <= n <= list.len(),
    ensures
        match crate::requests::last_static(list, n, mac, vlan) {
            Some(i) => 0 <= i < n && list[i].mac@ == mac && list[i].vlan == vlan && forall|j: int|
                i < j < n ==> !((#[trigger] list[j]).mac@ == mac && list[j].vlan == vlan),
            None => forall|j: int|
                0 <= j < n ==> !((#[trigger] list[j]).mac@ == mac && list[j].vlan == vlan),
        },
    decreases n,
{
    if n > 0 && !(list[n - 1].mac@ == mac && list[n - 1].vlan == vlan) {
        lemma_last_binding(list, n - 1, mac, vlan);
    }
}

/// A station is bound in a VLAN where it is asked for, to the address and the
/// interface that are asked for; where it stands twice, the last counts.
pub proof fn lemma_bindings_are_configured(
    m: Map<(Seq<char>, u16), crate::snoopsec::StaticBinding>,
    list: Seq<StaticRequest>,
    mac: Seq<char>,
    vlan: u16,
    i: int,
)
    requires
        crate::requests::binds(m, list, list.len() as int, mac, vlan),
    ensures
        m.dom().contains((mac, vlan)) <==> exists|j: int|
            0 <= j < list.len() && (#[trigger] list[j]).mac@ == mac && list[j].vlan == vlan,
        0 <= i < list.len() && list[i].mac@ == mac && list[i].vlan == vlan && (forall|j: int|
            i < j < list.len() ==> !((#[trigger] list[j]).mac@ == mac && list[j].vlan == vlan))
            ==> {
            &&& Some(m[(mac, vlan)].ip) == crate::ip::v4_value(list[i].address@)
            &&& m[(mac, vlan)].interface@ == list[i].interface@
        },
{
    lemma_last_binding(list, list.len() as int, mac, vlan);
    if let Some(k) = crate::requests::last_static(list, list.len() as int, mac, vlan) {
        assert(list[k].mac@ == mac);
        if k < i < list.len() {
            assert(!(list[i].mac@ == mac && list[i].vlan == vlan));
        }
    }
}

} // verus!
