//! What the engines learn of the switch from syncd's interface view: the
//! VLAN membership (query transmission wants the port lists; the transport
//! classifies tag-stripped frames by the ingress port's untagged VLAN), the
//! routed interfaces, and the identity that LLDP advertises.

use vstd::prelude::*;

use crate::interfaces::InterfaceState;
use crate::lldp;
use crate::mac::parse_mac;
use crate::ordmap::{OrdMap, TextSet};
use crate::snoopsec::L2View;
use crate::text::{cat2, head, same_text, trim};

verus! {

/// A front-panel port.
pub open spec fn is_ethernet(i: InterfaceState) -> bool {
    i.kind@ == "ethernet"@
}

/// Is an interface bridged? A port or a Port-Channel without an interface
/// address is.
pub open spec fn is_bridged(i: InterfaceState) -> bool {
    (i.kind@ == "ethernet"@ || i.kind@ == "port-channel"@) && i.ip_addresses@.len() == 0
}

/// Is an interface routed? A port, a Port-Channel or a VLAN interface with an
/// interface address is.
pub open spec fn is_routed(i: InterfaceState) -> bool {
    (i.kind@ == "ethernet"@ || i.kind@ == "port-channel"@ || i.kind@ == "vlan"@)
        && i.ip_addresses@.len() > 0
}

pub open spec fn is_trunk(i: InterfaceState) -> bool {
    i.switchport_mode@ == "trunk"@
}

/// The VLAN of an interface's untagged frames: a trunk's native VLAN, else the
/// access VLAN; 1 where there is none or it is out of range.
pub open spec fn untagged_vlan(i: InterfaceState) -> u16 {
    let raw = if is_trunk(i) {
        i.native_vlan
    } else {
        i.access_vlan
    };
    if raw == 0 || raw > 0xffff {
        1
    } else {
        raw as u16
    }
}

/// The first `n` tagged VLANs of a trunk that are in range.
pub open spec fn tagged_vlans(vlans: Seq<u32>, n: int) -> Seq<u16>
    decreases n,
{
    if n <= 0 {
        Seq::empty()
    } else if vlans[n - 1] <= 0xffff {
        tagged_vlans(vlans, n - 1).push(vlans[n - 1] as u16)
    } else {
        tagged_vlans(vlans, n - 1)
    }
}

/// The VLANs that an interface carries: the untagged one, then a trunk's
/// tagged ones.
pub open spec fn carried_vlans(i: InterfaceState) -> Seq<u16> {
    seq![untagged_vlan(i)] + if is_trunk(i) {
        tagged_vlans(i.trunk_vlans@, i.trunk_vlans@.len() as int)
    } else {
        Seq::empty()
    }
}

fn bridged(i: &InterfaceState) -> (r: bool)
    ensures
        r == is_bridged(*i),
{
    (same_text(&i.kind, "ethernet") || same_text(&i.kind, "port-channel")) && i.ip_addresses.len()
        == 0
}

fn untagged(i: &InterfaceState) -> (r: u16)
    ensures
        r == untagged_vlan(*i),
{
    let raw: u32 = if same_text(&i.switchport_mode, "trunk") {
        i.native_vlan
    } else {
        i.access_vlan
    };
    if raw == 0 || raw > 0xffff {
        1
    } else {
        raw as u16
    }
}

fn carried(i: &InterfaceState) -> (r: Vec<u16>)
    ensures
        r@ == carried_vlans(*i),
{
    let mut r: Vec<u16> = Vec::new();
    r.push(untagged(i));
    let ghost first = seq![untagged_vlan(*i)];
    assert(r@ =~= first + tagged_vlans(i.trunk_vlans@, 0));
    if same_text(&i.switchport_mode, "trunk") {
        let mut k: usize = 0;
        while k < i.trunk_vlans.len()
            invariant
                k <= i.trunk_vlans@.len(),
                r@ == first + tagged_vlans(i.trunk_vlans@, k as int),
            decreases i.trunk_vlans@.len() - k,
        {
            let vlan: u32 = i.trunk_vlans[k];
            if vlan <= 0xffff {
                r.push(vlan as u16);
            }
            k = k + 1;
            assert(r@ =~= first + tagged_vlans(i.trunk_vlans@, k as int));
        }
    } else {
        assert(r@ =~= carried_vlans(*i));
    }
    r
}

// ----------------------------------------------------- per-VLAN port lists

/// A VLAN's list in a table of lists.
pub open spec fn list_at(m: Map<u16, Seq<Seq<char>>>, vlan: u16) -> Seq<Seq<char>> {
    if m.dom().contains(vlan) {
        m[vlan]
    } else {
        Seq::empty()
    }
}

/// The table with a port appended to each of the first `n` VLANs' lists.
pub open spec fn with_port(
    m: Map<u16, Seq<Seq<char>>>,
    vlans: Seq<u16>,
    n: int,
    port: Seq<char>,
) -> Map<u16, Seq<Seq<char>>>
    decreases n,
{
    if n <= 0 {
        m
    } else {
        let before = with_port(m, vlans, n - 1, port);
        before.insert(vlans[n - 1], list_at(before, vlans[n - 1]).push(port))
    }
}

/// The ports of each VLAN, of the first `n` interfaces, in their order.
pub open spec fn vlan_lists(all: Seq<InterfaceState>, n: int) -> Map<u16, Seq<Seq<char>>>
    decreases n,
{
    if n <= 0 {
        Map::empty()
    } else if is_bridged(all[n - 1]) {
        with_port(
            vlan_lists(all, n - 1),
            carried_vlans(all[n - 1]),
            carried_vlans(all[n - 1]).len() as int,
            all[n - 1].name@,
        )
    } else {
        vlan_lists(all, n - 1)
    }
}

/// A table of lists as mathematical values.
pub open spec fn lists_view(m: OrdMap<u16, Vec<String>>) -> Map<u16, Seq<Seq<char>>> {
    m@.map_values(|v: Vec<String>| v.deep_view())
}

fn append_port(m: &mut OrdMap<u16, Vec<String>>, vlan: u16, port: &str)
    requires
        old(m).wf(),
    ensures
        final(m).wf(),
        lists_view(*final(m)) == lists_view(*old(m)).insert(
            vlan,
            list_at(lists_view(*old(m)), vlan).push(port@),
        ),
{
    let ghost before = lists_view(*m);
    let mut list: Vec<String> = match m.remove(&vlan) {
        Some(list) => list,
        None => Vec::new(),
    };
    assert(list.deep_view() =~= list_at(before, vlan));
    let ghost had = list.deep_view();
    list.push(port.to_owned());
    assert(list.deep_view() =~= had.push(port@));
    m.insert(vlan, list);
    assert(lists_view(*m) =~= before.insert(vlan, list_at(before, vlan).push(port@)));
}

/// The ports of each VLAN, for query transmission.
pub fn vlan_ports(all: &Vec<InterfaceState>) -> (r: OrdMap<u16, Vec<String>>)
    ensures
        r.wf(),
        lists_view(r) == vlan_lists(all@, all@.len() as int),
{
    let mut r: OrdMap<u16, Vec<String>> = OrdMap::new();
    let mut i: usize = 0;
    assert(lists_view(r) =~= Map::empty());
    while i < all.len()
        invariant
            i <= all@.len(),
            r.wf(),
            lists_view(r) == vlan_lists(all@, i as int),
        decreases all@.len() - i,
    {
        if bridged(&all[i]) {
            let vlans = carried(&all[i]);
            let ghost before = lists_view(r);
            let mut k: usize = 0;
            while k < vlans.len()
                invariant
                    i < all@.len(),
                    k <= vlans@.len(),
                    r.wf(),
                    lists_view(r) == with_port(before, vlans@, k as int, all@[i as int].name@),
                decreases vlans@.len() - k,
            {
                append_port(&mut r, vlans[k], &all[i].name);
                k = k + 1;
            }
        }
        i = i + 1;
    }
    r
}

// ------------------------------------------------------------ VLAN of a port

/// The untagged VLAN of each bridged interface among the first `n`.
pub open spec fn pvid_map(all: Seq<InterfaceState>, n: int) -> Map<Seq<char>, u16>
    decreases n,
{
    if n <= 0 {
        Map::empty()
    } else if is_bridged(all[n - 1]) {
        pvid_map(all, n - 1).insert(all[n - 1].name@, untagged_vlan(all[n - 1]))
    } else {
        pvid_map(all, n - 1)
    }
}

/// The untagged VLAN of each bridged interface.
pub fn pvids(all: &Vec<InterfaceState>) -> (r: OrdMap<String, u16>)
    ensures
        r.wf(),
        r@ == pvid_map(all@, all@.len() as int),
{
    let mut r: OrdMap<String, u16> = OrdMap::new();
    let mut i: usize = 0;
    while i < all.len()
        invariant
            i <= all@.len(),
            r.wf(),
            r@ == pvid_map(all@, i as int),
        decreases all@.len() - i,
    {
        if bridged(&all[i]) {
            r.insert(all[i].name.clone(), untagged(&all[i]));
        }
        i = i + 1;
    }
    r
}

// ------------------------------------------------------- physical port sets

/// The physical ports that an interface stands for: a Port-Channel's members,
/// or the port itself.
pub open spec fn physical_ports(i: InterfaceState) -> Set<Seq<char>> {
    if i.kind@ == "port-channel"@ {
        crate::ordmap::name_set(i.members.deep_view())
    } else {
        set![i.name@]
    }
}

/// A VLAN's set in a table of sets.
pub open spec fn set_at(m: Map<u16, Set<Seq<char>>>, vlan: u16) -> Set<Seq<char>> {
    if m.dom().contains(vlan) {
        m[vlan]
    } else {
        Set::empty()
    }
}

/// The table with some ports in each of the first `n` VLANs' sets.
pub open spec fn with_ports(
    m: Map<u16, Set<Seq<char>>>,
    vlans: Seq<u16>,
    n: int,
    ports: Set<Seq<char>>,
) -> Map<u16, Set<Seq<char>>>
    decreases n,
{
    if n <= 0 {
        m
    } else {
        let before = with_ports(m, vlans, n - 1, ports);
        before.insert(vlans[n - 1], set_at(before, vlans[n - 1]).union(ports))
    }
}

/// The physical ports of each VLAN, of the first `n` interfaces.
pub open spec fn vlan_sets(all: Seq<InterfaceState>, n: int) -> Map<u16, Set<Seq<char>>>
    decreases n,
{
    if n <= 0 {
        Map::empty()
    } else if is_bridged(all[n - 1]) {
        with_ports(
            vlan_sets(all, n - 1),
            carried_vlans(all[n - 1]),
            carried_vlans(all[n - 1]).len() as int,
            physical_ports(all[n - 1]),
        )
    } else {
        vlan_sets(all, n - 1)
    }
}

/// The members of each Port-Channel among the first `n` interfaces.
pub open spec fn channel_sets(all: Seq<InterfaceState>, n: int) -> Map<Seq<char>, Set<Seq<char>>>
    decreases n,
{
    if n <= 0 {
        Map::empty()
    } else if all[n - 1].kind@ == "port-channel"@ {
        channel_sets(all, n - 1).insert(
            all[n - 1].name@,
            crate::ordmap::name_set(all[n - 1].members.deep_view()),
        )
    } else {
        channel_sets(all, n - 1)
    }
}

/// The sets of a table of VLANs as mathematical values.
pub open spec fn vlan_sets_view(m: OrdMap<u16, TextSet>) -> Map<u16, Set<Seq<char>>> {
    m@.map_values(|s: TextSet| s@.dom())
}

/// The sets of a table of Port-Channels as mathematical values.
pub open spec fn channel_sets_view(m: OrdMap<String, TextSet>) -> Map<Seq<char>, Set<Seq<char>>> {
    m@.map_values(|s: TextSet| s@.dom())
}

fn add_ports(m: &mut OrdMap<u16, TextSet>, vlan: u16, ports: &TextSet)
    requires
        crate::snoopsec::sets_wf(*old(m)),
        ports.wf(),
    ensures
        crate::snoopsec::sets_wf(*final(m)),
        vlan_sets_view(*final(m)) == vlan_sets_view(*old(m)).insert(
            vlan,
            set_at(vlan_sets_view(*old(m)), vlan).union(ports@.dom()),
        ),
{
    let ghost before = vlan_sets_view(*m);
    let ghost had = m@;
    let mut set: TextSet = match m.remove(&vlan) {
        Some(set) => set,
        None => OrdMap::new(),
    };
    assert(set@.dom() =~= set_at(before, vlan));
    set.extend(ports);
    m.insert(vlan, set);
    assert(vlan_sets_view(*m) =~= before.insert(
        vlan,
        set_at(before, vlan).union(ports@.dom()),
    ));
}

fn targets(i: &InterfaceState) -> (r: TextSet)
    ensures
        r.wf(),
        r@.dom() == physical_ports(*i),
{
    if same_text(&i.kind, "port-channel") {
        OrdMap::of_names(&i.members)
    } else {
        let mut r: TextSet = OrdMap::new();
        r.insert(i.name.clone(), ());
        assert(r@.dom() =~= set![i.name@]);
        r
    }
}

/// The snooping/DAI view. It wants physical ports only: Port-Channels expand
/// to their members (the redirect entries land on member ports in syncd).
pub fn l2_view(all: &Vec<InterfaceState>) -> (r: L2View)
    ensures
        r.wf(),
        vlan_sets_view(r.vlan_ports) == vlan_sets(all@, all@.len() as int),
        channel_sets_view(r.po_members) == channel_sets(all@, all@.len() as int),
{
    let mut vlan_ports: OrdMap<u16, TextSet> = OrdMap::new();
    let mut po_members: OrdMap<String, TextSet> = OrdMap::new();
    let mut i: usize = 0;
    assert(vlan_sets_view(vlan_ports) =~= Map::empty());
    assert(channel_sets_view(po_members) =~= Map::empty());
    while i < all.len()
        invariant
            i <= all@.len(),
            crate::snoopsec::sets_wf(vlan_ports),
            crate::snoopsec::sets_wf(po_members),
            vlan_sets_view(vlan_ports) == vlan_sets(all@, i as int),
            channel_sets_view(po_members) == channel_sets(all@, i as int),
        decreases all@.len() - i,
    {
        let iface = &all[i];
        if same_text(&iface.kind, "port-channel") {
            let ghost before = channel_sets_view(po_members);
            let members: TextSet = OrdMap::of_names(&iface.members);
            po_members.insert(iface.name.clone(), members);
            assert(channel_sets_view(po_members) =~= before.insert(
                iface.name@,
                crate::ordmap::name_set(iface.members.deep_view()),
            ));
        }
        if bridged(iface) {
            let vlans = carried(iface);
            let ports = targets(iface);
            let ghost before = vlan_sets_view(vlan_ports);
            let mut k: usize = 0;
            while k < vlans.len()
                invariant
                    k <= vlans@.len(),
                    ports.wf(),
                    ports@.dom() == physical_ports(*iface),
                    crate::snoopsec::sets_wf(vlan_ports),
                    vlan_sets_view(vlan_ports) == with_ports(
                        before,
                        vlans@,
                        k as int,
                        physical_ports(*iface),
                    ),
                decreases vlans@.len() - k,
            {
                add_ports(&mut vlan_ports, vlans[k], &ports);
                k = k + 1;
            }
        }
        i = i + 1;
    }
    L2View { vlan_ports, po_members }
}

// ---------------------------------------------------------- L3 interfaces

/// Is a name one of the routed interfaces among the first `n`?
pub open spec fn names_routed(all: Seq<InterfaceState>, n: int, name: Seq<char>) -> bool {
    exists|i: int| 0 <= i < n && is_routed(#[trigger] all[i]) && all[i].name@ == name
}

/// The RIB engine's ASIC L3 interface set: routed ports
/// and SVIs, i.e. anything with an interface address.
pub fn l3_interfaces(all: &Vec<InterfaceState>) -> (r: TextSet)
    ensures
        r.wf(),
        forall|name: Seq<char>| #[trigger]
            r@.dom().contains(name) <==> names_routed(all@, all@.len() as int, name),
{
    let mut r: TextSet = OrdMap::new();
    let mut i: usize = 0;
    while i < all.len()
        invariant
            i <= all@.len(),
            r.wf(),
            forall|name: Seq<char>| #[trigger]
                r@.dom().contains(name) <==> names_routed(all@, i as int, name),
        decreases all@.len() - i,
    {
        let iface = &all[i];
        let ghost had = r@.dom();
        let routed: bool = (same_text(&iface.kind, "ethernet") || same_text(
            &iface.kind,
            "port-channel",
        ) || same_text(&iface.kind, "vlan")) && iface.ip_addresses.len() > 0;
        if routed {
            r.insert(iface.name.clone(), ());
        }
        proof {
            assert forall|name: Seq<char>| #[trigger]
                r@.dom().contains(name) <==> names_routed(all@, i + 1, name) by {
                assert(r@.dom().contains(name) <==> had.contains(name) || (is_routed(
                    all@[i as int],
                ) && name == all@[i as int].name@));
                if names_routed(all@, i as int, name) {
                    let j = choose|j: int|
                        0 <= j < i && is_routed(#[trigger] all@[j]) && all@[j].name@ == name;
                    assert(is_routed(all@[j]));
                }
            }
        }
        i = i + 1;
    }
    r
}

// --------------------------------------------------------------- identity

/// The first interface, from the `n`th on, of a kind; one with an address of
/// its own if `with_mac` asks for it.
pub open spec fn first_of_kind(
    all: Seq<InterfaceState>,
    n: int,
    kind: Seq<char>,
    with_mac: bool,
) -> Option<int>
    decreases all.len() - n,
{
    if n >= all.len() {
        None
    } else if all[n].kind@ == kind && (!with_mac || all[n].mac@.len() > 0) {
        Some(n)
    } else {
        first_of_kind(all, n + 1, kind, with_mac)
    }
}

fn find_kind(all: &Vec<InterfaceState>, kind: &str, with_mac: bool) -> (r: Option<usize>)
    ensures
        match r {
            Some(i) => i < all@.len() && first_of_kind(all@, 0, kind@, with_mac) == Some(i as int),
            None => first_of_kind(all@, 0, kind@, with_mac) is None,
        },
{
    let mut i: usize = 0;
    while i < all.len()
        invariant
            i <= all@.len(),
            first_of_kind(all@, 0, kind@, with_mac) == first_of_kind(
                all@,
                i as int,
                kind@,
                with_mac,
            ),
        decreases all@.len() - i,
    {
        if same_text(&all[i].kind, kind) && (!with_mac || !all[i].mac.as_str().is_empty()) {
            return Some(i);
        }
        i = i + 1;
    }
    None
}

/// The switch base MAC: that of the first front-panel port that has one.
pub open spec fn base_mac_of(all: Seq<InterfaceState>) -> Option<Seq<u8>> {
    match first_of_kind(all, 0, "ethernet"@, true) {
        Some(i) => crate::mac::mac_value(all[i].mac@),
        None => None,
    }
}

/// The switch base MAC; none where the first port's cannot be read.
pub fn base_mac(all: &Vec<InterfaceState>) -> (r: Option<[u8; 6]>)
    ensures
        crate::mac::mac_view(r) == base_mac_of(all@),
{
    match find_kind(all, "ethernet", true) {
        Some(i) => parse_mac(&all[i].mac),
        None => None,
    }
}

/// The identity used where syncd names no base MAC: a locally administered
/// one.
pub const LOCAL_MAC: [u8; 6] = [0x02, 0x00, 0x00, 0x00, 0x00, 0x01];

/// The address of the management port without its prefix length; empty where
/// there is none.
pub open spec fn management_text(all: Seq<InterfaceState>) -> Seq<char> {
    match first_of_kind(all, 0, "management"@, false) {
        Some(i) => if all[i].ip_addresses@.len() > 0 {
            crate::text::head_text(all[i].ip_addresses@[0]@, '/')
        } else {
            Seq::empty()
        },
        None => Seq::empty(),
    }
}

/// The management address.
pub fn management_address(all: &Vec<InterfaceState>) -> (r: String)
    ensures
        r@ == management_text(all@),
{
    match find_kind(all, "management", false) {
        Some(i) => if all[i].ip_addresses.len() > 0 {
            head(&all[i].ip_addresses[0], '/')
        } else {
            let r = String::new();
            assert(r@ =~= Seq::empty());
            r
        },
        None => {
            let r = String::new();
            assert(r@ =~= Seq::empty());
            r
        },
    }
}

/// A MAC address or, where there is none, zeros.
pub open spec fn or_zeros(mac: Option<Seq<u8>>) -> Seq<u8> {
    match mac {
        Some(m) => m,
        None => Seq::new(6, |i: int| 0u8),
    }
}

fn mac_or_zeros(mac: Option<[u8; 6]>) -> (r: [u8; 6])
    ensures
        r@ == or_zeros(crate::mac::mac_view(mac)),
{
    match mac {
        Some(m) => m,
        None => {
            let r = [0u8, 0u8, 0u8, 0u8, 0u8, 0u8];
            assert(r@ =~= Seq::new(6, |i: int| 0u8));
            r
        },
    }
}

/// The identity that LLDP advertises.
pub fn lldp_system(all: &Vec<InterfaceState>, hostname: &str, version: &str) -> (r: lldp::System)
    ensures
        r.chassis_mac@ == or_zeros(base_mac_of(all@)),
        r.name@ == hostname@,
        r.description@ == "Hemlock NOS version "@ + version@,
        r.management_address@ == management_text(all@),
{
    lldp::System {
        chassis_mac: mac_or_zeros(base_mac(all)),
        name: hostname.to_owned(),
        description: cat2("Hemlock NOS version ", version),
        management_address: management_address(all),
    }
}

/// The last front-panel port of a name among the first `n` interfaces.
pub open spec fn last_port(all: Seq<InterfaceState>, n: int, name: Seq<char>) -> Option<int>
    decreases n,
{
    if n <= 0 {
        None
    } else if is_ethernet(all[n - 1]) && all[n - 1].name@ == name {
        Some(n - 1)
    } else {
        last_port(all, n - 1, name)
    }
}

/// The table holds what LLDP says of a port.
pub open spec fn lists_port(
    m: Map<Seq<char>, lldp::PortInfo>,
    all: Seq<InterfaceState>,
    n: int,
    name: Seq<char>,
) -> bool {
    match last_port(all, n, name) {
        Some(i) => m.dom().contains(name) && m[name].mac@ == or_zeros(
            crate::mac::mac_value(all[i].mac@),
        ) && m[name].description@ == all[i].description@,
        None => !m.dom().contains(name),
    }
}

/// LLDP's ports: every front-panel port is a candidate (the
/// engine applies the global/per-port disables).
pub fn lldp_ports(all: &Vec<InterfaceState>) -> (r: OrdMap<String, lldp::PortInfo>)
    ensures
        r.wf(),
        forall|name: Seq<char>| #[trigger] lists_port(r@, all@, all@.len() as int, name),
{
    let mut r: OrdMap<String, lldp::PortInfo> = OrdMap::new();
    let mut i: usize = 0;
    while i < all.len()
        invariant
            i <= all@.len(),
            r.wf(),
            forall|name: Seq<char>| #[trigger] lists_port(r@, all@, i as int, name),
        decreases all@.len() - i,
    {
        let ghost had = r@;
        if same_text(&all[i].kind, "ethernet") {
            r.insert(
                all[i].name.clone(),
                lldp::PortInfo {
                    mac: mac_or_zeros(parse_mac(&all[i].mac)),
                    description: all[i].description.clone(),
                },
            );
        }
        proof {
            assert forall|name: Seq<char>| #[trigger] lists_port(r@, all@, i + 1, name) by {
                assert(lists_port(had, all@, i as int, name));
            }
        }
        i = i + 1;
    }
    r
}

/// The switch's hostname: what the first of two files that can be read holds,
/// trimmed; `hemlock` where that is nothing.
pub open spec fn hostname_of(kernel: Option<Seq<char>>, etc: Option<Seq<char>>) -> Seq<char> {
    let text = match kernel {
        Some(t) => Some(t),
        None => etc,
    };
    match text {
        Some(t) => if crate::text::trim_text(t).len() > 0 {
            crate::text::trim_text(t)
        } else {
            "hemlock"@
        },
        None => "hemlock"@,
    }
}

/// The switch's configured hostname, for the LLDP system-name TLV, from what
/// the kernel's hostname file and `/etc/hostname` hold (`None` for one that
/// cannot be read).
pub fn hostname(kernel: &Option<String>, etc: &Option<String>) -> (r: String)
    ensures
        r@ == hostname_of(crate::text::option_text(*kernel), crate::text::option_text(*etc)),
{
    let text = match kernel {
        Some(t) => Some(t),
        None => match etc {
            Some(t) => Some(t),
            None => None,
        },
    };
    match text {
        Some(t) => {
            let name = trim(t);
            if name.as_str().is_empty() {
                "hemlock".to_owned()
            } else {
                name
            }
        },
        None => "hemlock".to_owned(),
    }
}

// -------------------------------------------------------------------- laws

proof fn lemma_with_port_has(
    m: Map<u16, Seq<Seq<char>>>,
    vlans: Seq<u16>,
    n: int,
    port: Seq<char>,
    vlan: u16,
    p: Seq<char>,
)
    requires
        0 <= n <= vlans.len(),
    ensures
        list_at(with_port(m, vlans, n, port), vlan).contains(p) <==> list_at(m, vlan).contains(p)
            || (p == port && vlans.take(n).contains(vlan)),
    decreases n,
{
    if n > 0 {
        lemma_with_port_has(m, vlans, n - 1, port, vlan, p);
        let before = with_port(m, vlans, n - 1, port);
        let v = vlans[n - 1];
        assert(vlans.take(n) =~= vlans.take(n - 1).push(v));
        assert(vlans.take(n).contains(vlan) <==> vlans.take(n - 1).contains(vlan) || vlan == v) by {
            if vlans.take(n - 1).contains(vlan) {
                let front = vlans.take(n - 1);
                let j = choose|j: int| 0 <= j < front.len() && front[j] == vlan;
                assert(vlans.take(n)[j] == vlan);
            }
            if vlan == v {
                assert(vlans.take(n)[n - 1] == v);
            }
        }
        let old_list = list_at(before, v);
        assert(old_list.push(port).contains(p) <==> old_list.contains(p) || p == port) by {
            if old_list.contains(p) {
                let j = choose|j: int| 0 <= j < old_list.len() && old_list[j] == p;
                assert(old_list.push(port)[j] == p);
            }
            if p == port {
                assert(old_list.push(port)[old_list.len() as int] == p);
            }
        }
    } else {
        assert(vlans.take(0) =~= Seq::empty());
    }
}

/// A port carries a VLAN among the first `n` interfaces.
pub open spec fn carries(all: Seq<InterfaceState>, n: int, port: Seq<char>, vlan: u16) -> bool {
    exists|i: int|
        0 <= i < n && is_bridged(#[trigger] all[i]) && all[i].name@ == port && carried_vlans(
            all[i],
        ).contains(vlan)
}

/// A VLAN's list holds exactly the bridged interfaces that carry it.
pub proof fn lemma_vlan_lists_hold_carriers(
    all: Seq<InterfaceState>,
    n: int,
    vlan: u16,
    port: Seq<char>,
)
    requires
        0 <= n <= all.len(),
    ensures
        list_at(vlan_lists(all, n), vlan).contains(port) <==> carries(all, n, port, vlan),
    decreases n,
{
    if n > 0 {
        lemma_vlan_lists_hold_carriers(all, n - 1, vlan, port);
        let i = all[n - 1];
        if is_bridged(i) {
            let vlans = carried_vlans(i);
            lemma_with_port_has(
                vlan_lists(all, n - 1),
                vlans,
                vlans.len() as int,
                i.name@,
                vlan,
                port,
            );
            assert(vlans.take(vlans.len() as int) =~= vlans);
        }
        if carries(all, n - 1, port, vlan) {
            let j = choose|j: int|
                0 <= j < n - 1 && is_bridged(#[trigger] all[j]) && all[j].name@ == port
                    && carried_vlans(all[j]).contains(vlan);
            assert(is_bridged(all[j]));
        }
    }
}

/// An interface that is routed is in no VLAN, and one that is bridged is no
/// L3 interface.
pub proof fn lemma_routed_or_bridged(i: InterfaceState)
    ensures
        !(is_routed(i) && is_bridged(i)),
{
}

/// The untagged VLAN that frames of a bridged interface are classified to is
/// one of the VLANs it carries.
pub proof fn lemma_pvid_is_carried(i: InterfaceState)
    ensures
        carried_vlans(i).contains(untagged_vlan(i)),
        1 <= untagged_vlan(i),
{
    assert(carried_vlans(i)[0] == untagged_vlan(i));
}

} // verus!
