//! Laws of the views on the switch's interfaces.

use vstd::prelude::*;

use crate::interfaces::InterfaceState;

verus! {

/// A switched port: a front panel port or a port channel without an address.
pub open spec fn switched(i: InterfaceState) -> bool {
    i.ip_addresses@.len() == 0 && (i.kind@ == "ethernet"@ || i.kind@ == "port-channel"@)
}

/// The VLAN of a port's untagged frames: the native VLAN of a trunk, the
/// access VLAN of another port, VLAN 1 where none of sixteen bits is set.
pub open spec fn own_vlan(i: InterfaceState) -> int {
    let set = if i.switchport_mode@ == "trunk"@ {
        i.native_vlan
    } else {
        i.access_vlan
    };
    if 1 <= set <= 65535 {
        set as int
    } else {
        1
    }
}

/// Is a port in a VLAN: by its own VLAN or, on a trunk, by its list?
pub open spec fn is_in(i: InterfaceState, vlan: u16) -> bool {
    ||| vlan == own_vlan(i)
    ||| i.switchport_mode@ == "trunk"@ && i.trunk_vlans@.contains(vlan as u32)
}

proof fn lemma_tagged(vlans: Seq<u32>, n: int, vlan: u16)
    requires
        0 <= n <= vlans.len(),
    ensures
        crate::topology::tagged_vlans(vlans, n).contains(vlan) <==> vlans.take(n).contains(
            vlan as u32,
        ),
    decreases n,
{
    if n > 0 {
        lemma_tagged(vlans, n - 1, vlan);
        let front = crate::topology::tagged_vlans(vlans, n - 1);
        let all = crate::topology::tagged_vlans(vlans, n);
        let v = vlans[n - 1];
        let a = vlans.take(n - 1);
        let b = vlans.take(n);
        assert(b =~= a.push(v));
        if a.contains(vlan as u32) {
            let k = choose|k: int| 0 <= k < a.len() && a[k] == vlan as u32;
            assert(b[k] == vlan as u32);
        }
        if b.contains(vlan as u32) && !a.contains(vlan as u32) {
            let k = choose|k: int| 0 <= k < b.len() && b[k] == vlan as u32;
            if k < n - 1 {
                assert(a[k] == vlan as u32);
            }
            assert(v == vlan as u32);
        }
        if v <= 0xffff {
            if front.contains(vlan) {
                let k = choose|k: int| 0 <= k < front.len() && front[k] == vlan;
                assert(all[k] == vlan);
            }
            if v as u16 == vlan {
                assert(all[front.len() as int] == vlan);
                assert(b[n - 1] == vlan as u32);
            }
            if all.contains(vlan) {
                let k = choose|k: int| 0 <= k < all.len() && all[k] == vlan;
                if k < front.len() {
                    assert(front[k] == vlan);
                }
            }
        }
    }
}

/// A port carries its own VLAN and, as a trunk, the VLANs of its list.
pub proof fn lemma_ports_carry(i: InterfaceState, vlan: u16)
    ensures
        crate::topology::carried_vlans(i).contains(vlan) <==> is_in(i, vlan),
        crate::topology::carried_vlans(i)[0] == own_vlan(i),
        crate::topology::untagged_vlan(i) == own_vlan(i),
        crate::topology::is_bridged(i) == switched(i),
{
    let own = crate::topology::untagged_vlan(i);
    let tagged = crate::topology::tagged_vlans(i.trunk_vlans@, i.trunk_vlans@.len() as int);
    let all = crate::topology::carried_vlans(i);
    lemma_tagged(i.trunk_vlans@, i.trunk_vlans@.len() as int, vlan);
    assert(i.trunk_vlans@.take(i.trunk_vlans@.len() as int) =~= i.trunk_vlans@);
    assert(all[0] == own);
    if crate::topology::is_trunk(i) {
        if tagged.contains(vlan) {
            let k = choose|k: int| 0 <= k < tagged.len() && tagged[k] == vlan;
            assert(all[k + 1] == vlan);
        }
        if all.contains(vlan) {
            let k = choose|k: int| 0 <= k < all.len() && all[k] == vlan;
            if k > 0 {
                assert(tagged[k - 1] == vlan);
            }
        }
    } else if all.contains(vlan) {
        let k = choose|k: int| 0 <= k < all.len() && all[k] == vlan;
        assert(k == 0);
    }
}

/// The ports of a VLAN are the switched ports in it.
pub proof fn lemma_vlans_list_their_ports(
    all: Seq<InterfaceState>,
    vlan: u16,
    port: Seq<char>,
)
    ensures
        crate::topology::list_at(
            crate::topology::vlan_lists(all, all.len() as int),
            vlan,
        ).contains(port) <==> exists|i: int|
            0 <= i < all.len() && switched(#[trigger] all[i]) && all[i].name@ == port && is_in(
                all[i],
                vlan,
            ),
{
    crate::topology::lemma_vlan_lists_hold_carriers(all, all.len() as int, vlan, port);
    assert forall|i: int| 0 <= i < all.len() implies (crate::topology::carried_vlans(
        #[trigger] all[i],
    ).contains(vlan) <==> is_in(all[i], vlan)) && crate::topology::is_bridged(all[i]) == switched(
        all[i],
    ) by {
        lemma_ports_carry(all[i], vlan);
    }
    if crate::topology::carries(all, all.len() as int, port, vlan) {
        let i = choose|i: int|
            0 <= i < all.len() && crate::topology::is_bridged(#[trigger] all[i]) && all[i].name@
                == port && crate::topology::carried_vlans(all[i]).contains(vlan);
        assert(switched(all[i]));
    }
    if exists|i: int|
        0 <= i < all.len() && switched(#[trigger] all[i]) && all[i].name@ == port && is_in(
            all[i],
            vlan,
        ) {
        let i = choose|i: int|
            0 <= i < all.len() && switched(#[trigger] all[i]) && all[i].name@ == port && is_in(
                all[i],
                vlan,
            );
        assert(crate::topology::is_bridged(all[i]));
    }
}

/// A switched port has its own VLAN; where a name stands twice, the last
/// counts; what is not switched has none.
pub proof fn lemma_own_vlans(all: Seq<InterfaceState>, n: int, port: Seq<char>)
    requires
        0 < n <= all.len(),
    ensures
        ({
            let front = crate::topology::pvid_map(all, n - 1);
            let m = crate::topology::pvid_map(all, n);
            let i = all[n - 1];
            &&& !crate::topology::pvid_map(all, 0).dom().contains(port)
            &&& switched(i) && i.name@ == port ==> m.dom().contains(port) && m[port] == own_vlan(i)
            &&& !(switched(i) && i.name@ == port) ==> {
                &&& m.dom().contains(port) <==> front.dom().contains(port)
                &&& front.dom().contains(port) ==> m[port] == front[port]
            }
        }),
{
    lemma_ports_carry(all[n - 1], 1);
}

/// The physical ports of an interface: the members of a port channel, else
/// itself.
pub open spec fn is_physical_of(port: Seq<char>, i: InterfaceState) -> bool {
    if i.kind@ == "port-channel"@ {
        i.members.deep_view().contains(port)
    } else {
        port == i.name@
    }
}

proof fn lemma_with_ports(
    m: Map<u16, Set<Seq<char>>>,
    vlans: Seq<u16>,
    n: int,
    ports: Set<Seq<char>>,
    vlan: u16,
    p: Seq<char>,
)
    requires
        0 <= n <= vlans.len(),
    ensures
        crate::topology::set_at(
            crate::topology::with_ports(m, vlans, n, ports),
            vlan,
        ).contains(p) <==> crate::topology::set_at(m, vlan).contains(p) || (ports.contains(p)
            && vlans.take(n).contains(vlan)),
    decreases n,
{
    if n > 0 {
        lemma_with_ports(m, vlans, n - 1, ports, vlan, p);
        let a = vlans.take(n - 1);
        let b = vlans.take(n);
        assert(b =~= a.push(vlans[n - 1]));
        if a.contains(vlan) {
            let k = choose|k: int| 0 <= k < a.len() && a[k] == vlan;
            assert(b[k] == vlan);
        }
        if b.contains(vlan) {
            let k = choose|k: int| 0 <= k < b.len() && b[k] == vlan;
            if k < n - 1 {
                assert(a[k] == vlan);
            }
        }
        if vlans[n - 1] == vlan {
            assert(b[n - 1] == vlan);
        }
    }
}

/// The physical ports of a VLAN are those of the switched interfaces in it.
pub proof fn lemma_vlans_reach_physical_ports(
    all: Seq<InterfaceState>,
    n: int,
    vlan: u16,
    port: Seq<char>,
)
    requires
        0 <= n <= all.len(),
    ensures
        crate::topology::set_at(crate::topology::vlan_sets(all, n), vlan).contains(port)
            <==> exists|i: int|
            0 <= i < n && switched(#[trigger] all[i]) && is_in(all[i], vlan) && is_physical_of(
                port,
                all[i],
            ),
    decreases n,
{
    if n > 0 {
        lemma_vlans_reach_physical_ports(all, n - 1, vlan, port);
        let i = all[n - 1];
        lemma_ports_carry(i, vlan);
        let vlans = crate::topology::carried_vlans(i);
        assert(vlans.take(vlans.len() as int) =~= vlans);
        assert(crate::topology::physical_ports(i).contains(port) == is_physical_of(port, i)) by {
            assert(crate::ordmap::name_set(i.members.deep_view()).contains(port)
                == i.members.deep_view().contains(port));
        }
        if crate::topology::is_bridged(i) {
            lemma_with_ports(
                crate::topology::vlan_sets(all, n - 1),
                vlans,
                vlans.len() as int,
                crate::topology::physical_ports(i),
                vlan,
                port,
            );
        }
        if exists|k: int|
            0 <= k < n - 1 && switched(#[trigger] all[k]) && is_in(all[k], vlan) && is_physical_of(
                port,
                all[k],
            ) {
            let k = choose|k: int|
                0 <= k < n - 1 && switched(#[trigger] all[k]) && is_in(all[k], vlan)
                    && is_physical_of(port, all[k]);
            assert(switched(all[k]));
        }
        if switched(i) && is_in(i, vlan) && is_physical_of(port, i) {
            assert(switched(all[n - 1]));
        }
        if exists|k: int|
            0 <= k < n && switched(#[trigger] all[k]) && is_in(all[k], vlan) && is_physical_of(
                port,
                all[k],
            ) {
            let k = choose|k: int|
                0 <= k < n && switched(#[trigger] all[k]) && is_in(all[k], vlan) && is_physical_of(
                    port,
                    all[k],
                );
            if k < n - 1 {
                assert(switched(all[k]));
            }
        }
    }
}

/// A port channel is known with its members; where a name stands twice, the
/// last counts.
pub proof fn lemma_channels_have_members(all: Seq<InterfaceState>, n: int, name: Seq<char>)
    requires
        0 < n <= all.len(),
    ensures
        ({
            let front = crate::topology::channel_sets(all, n - 1);
            let m = crate::topology::channel_sets(all, n);
            let i = all[n - 1];
            let mine = i.kind@ == "port-channel"@ && i.name@ == name;
            &&& !crate::topology::channel_sets(all, 0).dom().contains(name)
            &&& mine ==> m.dom().contains(name) && forall|p: Seq<char>| #[trigger]
                m[name].contains(p) <==> i.members.deep_view().contains(p)
            &&& !mine ==> {
                &&& m.dom().contains(name) <==> front.dom().contains(name)
                &&& front.dom().contains(name) ==> m[name] == front[name]
            }
        }),
{
}

/// The routed interfaces are the ports, port channels and VLAN interfaces with
/// an address.
pub proof fn lemma_routed_interfaces(all: Seq<InterfaceState>, name: Seq<char>)
    ensures
        crate::topology::names_routed(all, all.len() as int, name) <==> exists|i: int|
            0 <= i < all.len() && (#[trigger] all[i]).name@ == name && all[i].ip_addresses@.len()
                > 0 && (all[i].kind@ == "ethernet"@ || all[i].kind@ == "port-channel"@
                || all[i].kind@ == "vlan"@),
{
    if crate::topology::names_routed(all, all.len() as int, name) {
        let i = choose|i: int|
            0 <= i < all.len() && crate::topology::is_routed(#[trigger] all[i]) && all[i].name@
                == name;
        assert(all[i].name@ == name);
    }
    if exists|i: int|
        0 <= i < all.len() && (#[trigger] all[i]).name@ == name && all[i].ip_addresses@.len() > 0
            && (all[i].kind@ == "ethernet"@ || all[i].kind@ == "port-channel"@ || all[i].kind@
            == "vlan"@) {
        let i = choose|i: int|
            0 <= i < all.len() && (#[trigger] all[i]).name@ == name && all[i].ip_addresses@.len()
                > 0 && (all[i].kind@ == "ethernet"@ || all[i].kind@ == "port-channel"@
                || all[i].kind@ == "vlan"@);
        assert(crate::topology::is_routed(all[i]));
    }
}

proof fn lemma_first(all: Seq<InterfaceState>, n: int, kind: Seq<char>, with_mac: bool)
    requires
        0 <= n,
    ensures
        match crate::topology::first_of_kind(all, n, kind, with_mac) {
            Some(i) => n <= i < all.len() && all[i].kind@ == kind && (with_mac
                ==> all[i].mac@.len() > 0) && forall|j: int|
                n <= j < i ==> !((#[trigger] all[j]).kind@ == kind && (with_mac
                    ==> all[j].mac@.len() > 0)),
            None => forall|j: int|
                n <= j < all.len() ==> !((#[trigger] all[j]).kind@ == kind && (with_mac
                    ==> all[j].mac@.len() > 0)),
        },
    decreases all.len() - n,
{
    if n < all.len() && !(all[n].kind@ == kind && (!with_mac || all[n].mac@.len() > 0)) {
        lemma_first(all, n + 1, kind, with_mac);
    }
}

/// The switch's own hardware address is that of the first front panel port
/// that has one.
pub proof fn lemma_base_address(all: Seq<InterfaceState>, i: int)
    ensures
        (forall|j: int|
            0 <= j < all.len() ==> !((#[trigger] all[j]).kind@ == "ethernet"@ && all[j].mac@.len()
                > 0)) ==> crate::topology::base_mac_of(all) is None,
        0 <= i < all.len() && all[i].kind@ == "ethernet"@ && all[i].mac@.len() > 0 && (forall|
            j: int,
        |
            0 <= j < i ==> !((#[trigger] all[j]).kind@ == "ethernet"@ && all[j].mac@.len() > 0))
            ==> crate::topology::base_mac_of(all) == crate::mac::mac_value(all[i].mac@),
{
    lemma_first(all, 0, "ethernet"@, true);
    if let Some(k) = crate::topology::first_of_kind(all, 0, "ethernet"@, true) {
        assert(all[k].kind@ == "ethernet"@);
        if 0 <= i < all.len() && all[i].kind@ == "ethernet"@ && all[i].mac@.len() > 0 {
            if i < k {
                assert(all[i].kind@ == "ethernet"@);
            }
        }
    }
}

/// The management address is the first address of the first management
/// interface, without its length; none where there is no such interface or it
/// has no address.
pub proof fn lemma_management_address(all: Seq<InterfaceState>, i: int)
    ensures
        (forall|j: int| 0 <= j < all.len() ==> (#[trigger] all[j]).kind@ != "management"@)
            ==> crate::topology::management_text(all).len() == 0,
        0 <= i < all.len() && all[i].kind@ == "management"@ && (forall|j: int|
            0 <= j < i ==> (#[trigger] all[j]).kind@ != "management"@) ==> {
            &&& all[i].ip_addresses@.len() == 0 ==> crate::topology::management_text(all).len() == 0
            &&& all[i].ip_addresses@.len() > 0 ==> crate::topology::management_text(all)
                == crate::text::head_text(all[i].ip_addresses@[0]@, '/')
        },
{
    lemma_first(all, 0, "management"@, false);
    if let Some(k) = crate::topology::first_of_kind(all, 0, "management"@, false) {
        assert(all[k].kind@ == "management"@);
        if 0 <= i < all.len() && all[i].kind@ == "management"@ {
            if i < k {
                assert(all[i].kind@ == "management"@);
            }
        }
    }
}

proof fn lemma_last_port(all: Seq<InterfaceState>, n: int, name: Seq<char>)
    requires
        0 <= n <= all.len(),
    ensures
        match crate::topology::last_port(all, n, name) {
            Some(i) => 0 <= i < n && all[i].kind@ == "ethernet"@ && all[i].name@ == name && forall|
                j: int,
            |
                i < j < n ==> !((#[trigger] all[j]).kind@ == "ethernet"@ && all[j].name@ == name),
            None => forall|j: int|
                0 <= j < n ==> !((#[trigger] all[j]).kind@ == "ethernet"@ && all[j].name@ == name),
        },
    decreases n,
{
    if n > 0 && !(all[n - 1].kind@ == "ethernet"@ && all[n - 1].name@ == name) {
        lemma_last_port(all, n - 1, name);
    }
}

/// LLDP speaks on the front panel ports and no others, each with its own
/// address, zeros where it has none, and its description.
pub proof fn lemma_lldp_ports(
    m: Map<Seq<char>, crate::lldp::PortInfo>,
    all: Seq<InterfaceState>,
    name: Seq<char>,
    i: int,
)
    requires
        crate::topology::lists_port(m, all, all.len() as int, name),
    ensures
        m.dom().contains(name) <==> exists|j: int|
            0 <= j < all.len() && (#[trigger] all[j]).kind@ == "ethernet"@ && all[j].name@ == name,
        0 <= i < all.len() && all[i].kind@ == "ethernet"@ && all[i].name@ == name && (forall|j: int|
            i < j < all.len() ==> !((#[trigger] all[j]).kind@ == "ethernet"@ && all[j].name@
                == name)) ==> {
            &&& m[name].description@ == all[i].description@
            &&& crate::mac::mac_value(all[i].mac@) matches Some(b) ==> m[name].mac@ == b
            &&& crate::mac::mac_value(all[i].mac@) is None ==> m[name].mac@ == seq![
                0u8,
                0u8,
                0u8,
                0u8,
                0u8,
                0u8,
            ]
        },
{
    lemma_last_port(all, all.len() as int, name);
    assert(Seq::new(6, |k: int| 0u8) =~= seq![0u8, 0u8, 0u8, 0u8, 0u8, 0u8]);
    if let Some(k) = crate::topology::last_port(all, all.len() as int, name) {
        assert(all[k].kind@ == "ethernet"@);
        if 0 <= i < all.len() && all[i].kind@ == "ethernet"@ && all[i].name@ == name {
            if k < i {
                assert(all[i].kind@ == "ethernet"@);
            }
        }
    }
}

/// The host is named by the running kernel, else by its file, without white
/// space around the name; a name that is missing or blank is the product's.
pub proof fn lemma_host_names(kernel: Option<Seq<char>>, etc: Option<Seq<char>>)
    ensures
        ({
            let r = crate::topology::hostname_of(kernel, etc);
            &&& kernel matches Some(t) ==> r == (if crate::text::trim_text(t).len() == 0 {
                "hemlock"@
            } else {
                crate::text::trim_text(t)
            })
            &&& kernel is None ==> (etc matches Some(t) ==> r == (if crate::text::trim_text(t).len()
                == 0 {
                "hemlock"@
            } else {
                crate::text::trim_text(t)
            }))
            &&& kernel is None && etc is None ==> r == "hemlock"@
        }),
{
}

} // verus!
