//! DHCP snooping + dynamic ARP inspection.
//!
//! DHCP on snooped VLANs traps to the CPU from untrusted ports
//! (hardware drops it) and copies from trusted ports (hardware still
//! forwards; the copy feeds binding learn) — expressed as a redirect
//! program, recomputed here from the config plus the L2 view (which ports
//! carry which VLAN, with Port-Channels expanded to members). The engine
//! validates trapped client messages (server messages from untrusted ports
//! drop and count; chaddr must match the L2 source MAC), maintains the
//! lease-tracked binding table, and re-injects valid frames toward the
//! trusted ports.
//!
//! DAI: ARP on inspected VLANs traps from untrusted ports, validates
//! against the binding table + statics + the configured `validate`
//! checks (default src-mac), then re-injects (flooded within the VLAN)
//! or drops with a counted reason.
//!
//! The relay lives here too, deliberately: it is a capability of this
//! engine rather than a daemon of its own, so there is exactly one DHCP
//! packet path on the box. A relayed request rides the same
//! trap/validate/re-inject pipeline as a snooped one — the chaddr check
//! runs before anything is forwarded — and the lease in the reply lands
//! in the same binding table, so DAI protects relayed clients without
//! any extra configuration.

use vstd::prelude::*;

use crate::bytes::{copy_bytes, read16, same_mac};
use crate::dhcp::{
    bootp_payload, build_client_reply, parse_arp, parse_bootp, parse_dhcp, with_giaddr,
};
use crate::ip::Ipv4;
use crate::mac::mac_text;
use crate::ordmap::{Key, OrdMap, TextSet};
use crate::text::{cat3, copy_texts, decimal, parse_decimal, same_text, same_texts};

verus! {

/// A set of VLANs.
pub type VlanSet = OrdMap<u16, ()>;

#[derive(Debug, Clone, Copy, PartialEq, Eq, PartialOrd, Ord, Structural)]
pub enum Validate {
    SrcMac,
    DstMac,
    Ip,
}

impl View for Validate {
    type V = Validate;

    open spec fn view(&self) -> Validate {
        *self
    }
}

pub open spec fn check_rank(v: Validate) -> int {
    match v {
        Validate::SrcMac => 0,
        Validate::DstMac => 1,
        Validate::Ip => 2,
    }
}

impl Key for Validate {
    open spec fn before(a: Validate, b: Validate) -> bool {
        check_rank(a) < check_rank(b)
    }

    proof fn lemma_irreflexive(a: Validate) {
    }

    proof fn lemma_transitive(a: Validate, b: Validate, c: Validate) {
    }

    proof fn lemma_total(a: Validate, b: Validate) {
    }

    fn is_before(&self, other: &Self) -> (r: bool) {
        match (self, other) {
            (Validate::SrcMac, Validate::DstMac) => true,
            (Validate::SrcMac, Validate::Ip) => true,
            (Validate::DstMac, Validate::Ip) => true,
            _ => false,
        }
    }

    fn is_same(&self, other: &Self) -> (r: bool) {
        *self == *other
    }
}

pub struct Config {
    pub dhcp_vlans: VlanSet,
    pub arp_vlans: VlanSet,
    /// Empty = default (src-mac).
    pub validate: OrdMap<Validate, ()>,
    /// Trusted interfaces — ports or Port-Channels (expanded through
    /// the L2 view).
    pub dhcp_trusted: TextSet,
    pub arp_trusted: TextSet,
    /// Static bindings keyed by (mac, vlan).
    pub statics: OrdMap<(String, u16), StaticBinding>,
    /// Relay-enabled SVIs, keyed by VLAN.
    pub relay: OrdMap<u16, RelayVlan>,
}

/// One VLAN's relay configuration.
#[derive(Debug, Clone, PartialEq, Eq)]
pub struct RelayVlan {
    /// Servers a request is relayed to, in config order.
    pub servers: Vec<Ipv4>,
    /// The SVI's address: the giaddr a server sees, and the address
    /// replies come back to.
    pub giaddr: Ipv4,
}

#[derive(Debug, Clone, PartialEq, Eq)]
pub struct StaticBinding {
    pub ip: Ipv4,
    pub interface: String,
}

/// The L2 facts the redirects need, from syncd's interface view.
pub struct L2View {
    /// VLAN -> physical ports carrying it (Port-Channel members
    /// expanded).
    pub vlan_ports: OrdMap<u16, TextSet>,
    /// Port-Channel display name -> member ports.
    pub po_members: OrdMap<String, TextSet>,
}

/// The per-VLAN redirect program pushed to syncd.
#[derive(Debug, Clone, PartialEq, Eq)]
pub struct RedirectProgram {
    /// (vlan, untrusted ports, trusted ports).
    pub dhcp: Vec<(u16, Vec<String>, Vec<String>)>,
    /// (vlan, untrusted ports).
    pub arp: Vec<(u16, Vec<String>)>,
}

// ----------------------------------------------------------------- config

impl Config {
    pub open spec fn wf(&self) -> bool {
        self.dhcp_vlans.wf() && self.arp_vlans.wf() && self.validate.wf() && self.dhcp_trusted.wf()
            && self.arp_trusted.wf() && self.statics.wf() && self.relay.wf()
    }
}

impl Default for Config {
    fn default() -> (r: Config)
        ensures
            r.wf(),
            r.dhcp_vlans.entries@.len() == 0,
            r.arp_vlans.entries@.len() == 0,
            r.validate.entries@.len() == 0,
            r.dhcp_trusted.entries@.len() == 0,
            r.arp_trusted.entries@.len() == 0,
            r.statics.entries@.len() == 0,
            r.relay.entries@.len() == 0,
    {
        Config {
            dhcp_vlans: OrdMap::new(),
            arp_vlans: OrdMap::new(),
            validate: OrdMap::new(),
            dhcp_trusted: OrdMap::new(),
            arp_trusted: OrdMap::new(),
            statics: OrdMap::new(),
            relay: OrdMap::new(),
        }
    }
}

impl Default for L2View {
    fn default() -> (r: L2View)
        ensures
            r.wf(),
            r.vlan_ports.entries@.len() == 0,
            r.po_members.entries@.len() == 0,
    {
        L2View { vlan_ports: OrdMap::new(), po_members: OrdMap::new() }
    }
}

/// Two tables of static bindings say the same.
pub open spec fn same_statics(
    a: Map<(Seq<char>, u16), StaticBinding>,
    b: Map<(Seq<char>, u16), StaticBinding>,
) -> bool {
    a.dom() == b.dom() && forall|k: (Seq<char>, u16)| #[trigger]
        a.dom().contains(k) ==> a[k].ip == b[k].ip && a[k].interface@ == b[k].interface@
}

/// Two relay tables say the same.
pub open spec fn same_relays(a: Map<u16, RelayVlan>, b: Map<u16, RelayVlan>) -> bool {
    a.dom() == b.dom() && forall|k: u16| #[trigger]
        a.dom().contains(k) ==> a[k].giaddr == b[k].giaddr && a[k].servers@ == b[k].servers@
}

/// Two configurations say the same.
pub open spec fn same_config(a: Config, b: Config) -> bool {
    &&& a.dhcp_vlans@.dom() == b.dhcp_vlans@.dom()
    &&& a.arp_vlans@.dom() == b.arp_vlans@.dom()
    &&& a.validate@.dom() == b.validate@.dom()
    &&& a.dhcp_trusted@.dom() == b.dhcp_trusted@.dom()
    &&& a.arp_trusted@.dom() == b.arp_trusted@.dom()
    &&& same_statics(a.statics@, b.statics@)
    &&& same_relays(a.relay@, b.relay@)
}

fn check_same_statics(
    a: &OrdMap<(String, u16), StaticBinding>,
    b: &OrdMap<(String, u16), StaticBinding>,
) -> (r: bool)
    requires
        a.wf(),
        b.wf(),
    ensures
        r == same_statics(a@, b@),
{
    if !a.same_keys(b) {
        return false;
    }
    let mut i: usize = 0;
    while i < a.entries.len()
        invariant
            a.wf(),
            b.wf(),
            a@.dom() == b@.dom(),
            i <= a.entries@.len(),
            forall|j: int|
                0 <= j < i ==> b@[(#[trigger] a.entries@[j]).0@].ip == a.entries@[j].1.ip
                    && b@[a.entries@[j].0@].interface@ == a.entries@[j].1.interface@,
        decreases a.entries@.len() - i,
    {
        proof {
            crate::ordmap::lemma_map_of_entry(a.entries@, i as int);
        }
        let mine = &a.entries[i].1;
        let same = match b.get(&a.entries[i].0) {
            Some(other) => other.ip == mine.ip && same_text(
                other.interface.as_str(),
                mine.interface.as_str(),
            ),
            None => false,
        };
        if !same {
            return false;
        }
        i = i + 1;
    }
    proof {
        assert forall|k: (Seq<char>, u16)| #[trigger] a@.dom().contains(k) implies a@[k].ip
            == b@[k].ip && a@[k].interface@ == b@[k].interface@ by {
            let j = choose|j: int| 0 <= j < a.entries@.len() && (#[trigger] a.entries@[j]).0@ == k;
            crate::ordmap::lemma_map_of_entry(a.entries@, j);
        }
    }
    true
}

fn same_servers(a: &Vec<Ipv4>, b: &Vec<Ipv4>) -> (r: bool)
    ensures
        r == (a@ == b@),
{
    if a.len() != b.len() {
        return false;
    }
    let mut i: usize = 0;
    while i < a.len()
        invariant
            i <= a@.len() == b@.len(),
            forall|j: int| 0 <= j < i ==> a@[j] == b@[j],
        decreases a@.len() - i,
    {
        if a[i] != b[i] {
            return false;
        }
        i = i + 1;
    }
    assert(a@ =~= b@);
    true
}

fn check_same_relays(a: &OrdMap<u16, RelayVlan>, b: &OrdMap<u16, RelayVlan>) -> (r: bool)
    requires
        a.wf(),
        b.wf(),
    ensures
        r == same_relays(a@, b@),
{
    if !a.same_keys(b) {
        return false;
    }
    let mut i: usize = 0;
    while i < a.entries.len()
        invariant
            a.wf(),
            b.wf(),
            a@.dom() == b@.dom(),
            i <= a.entries@.len(),
            forall|j: int|
                0 <= j < i ==> b@[(#[trigger] a.entries@[j]).0@].giaddr == a.entries@[j].1.giaddr
                    && b@[a.entries@[j].0@].servers@ == a.entries@[j].1.servers@,
        decreases a.entries@.len() - i,
    {
        proof {
            crate::ordmap::lemma_map_of_entry(a.entries@, i as int);
        }
        let mine = &a.entries[i].1;
        let same = match b.get(&a.entries[i].0) {
            Some(other) => other.giaddr == mine.giaddr && same_servers(
                &other.servers,
                &mine.servers,
            ),
            None => false,
        };
        if !same {
            return false;
        }
        i = i + 1;
    }
    proof {
        assert forall|k: u16| #[trigger] a@.dom().contains(k) implies a@[k].giaddr == b@[k].giaddr
            && a@[k].servers@ == b@[k].servers@ by {
            let j = choose|j: int| 0 <= j < a.entries@.len() && (#[trigger] a.entries@[j]).0@ == k;
            crate::ordmap::lemma_map_of_entry(a.entries@, j);
        }
    }
    true
}

impl Config {
    /// Do two configurations say the same?
    pub fn same(&self, other: &Config) -> (r: bool)
        requires
            self.wf(),
            other.wf(),
        ensures
            r == same_config(*self, *other),
    {
        self.dhcp_vlans.same_keys(&other.dhcp_vlans) && self.arp_vlans.same_keys(&other.arp_vlans)
            && self.validate.same_keys(&other.validate) && self.dhcp_trusted.same_keys(
            &other.dhcp_trusted,
        ) && self.arp_trusted.same_keys(&other.arp_trusted) && check_same_statics(
            &self.statics,
            &other.statics,
        ) && check_same_relays(&self.relay, &other.relay)
    }
}

// ---------------------------------------------------------------- L2 view

/// Every set of a table is in order.
pub open spec fn sets_wf<K: Key>(m: OrdMap<K, TextSet>) -> bool {
    m.wf() && forall|k: K::V| #[trigger] m@.dom().contains(k) ==> m@[k].wf()
}

/// Two tables of sets hold the same names under the same keys.
pub open spec fn same_sets<K: Key>(a: OrdMap<K, TextSet>, b: OrdMap<K, TextSet>) -> bool {
    a@.dom() == b@.dom() && forall|k: K::V| #[trigger]
        a@.dom().contains(k) ==> a@[k]@.dom() == b@[k]@.dom()
}

fn check_same_sets<K: Key>(a: &OrdMap<K, TextSet>, b: &OrdMap<K, TextSet>) -> (r: bool)
    requires
        sets_wf(*a),
        sets_wf(*b),
    ensures
        r == same_sets(*a, *b),
{
    if !a.same_keys(b) {
        return false;
    }
    let mut i: usize = 0;
    while i < a.entries.len()
        invariant
            sets_wf(*a),
            sets_wf(*b),
            a@.dom() == b@.dom(),
            i <= a.entries@.len(),
            forall|j: int|
                0 <= j < i ==> b@[(#[trigger] a.entries@[j]).0@]@.dom() == a.entries@[j].1@.dom(),
        decreases a.entries@.len() - i,
    {
        proof {
            crate::ordmap::lemma_map_of_entry(a.entries@, i as int);
            assert(a@.dom().contains(a.entries@[i as int].0@));
            assert(b@.dom().contains(a.entries@[i as int].0@));
        }
        let same = match b.get(&a.entries[i].0) {
            Some(other) => other.same_keys(&a.entries[i].1),
            None => false,
        };
        if !same {
            return false;
        }
        i = i + 1;
    }
    proof {
        assert forall|k: K::V| #[trigger] a@.dom().contains(k) implies a@[k]@.dom()
            == b@[k]@.dom() by {
            let j = choose|j: int| 0 <= j < a.entries@.len() && (#[trigger] a.entries@[j]).0@ == k;
            crate::ordmap::lemma_map_of_entry(a.entries@, j);
        }
    }
    true
}

impl L2View {
    pub open spec fn wf(&self) -> bool {
        sets_wf(self.vlan_ports) && sets_wf(self.po_members)
    }

    /// The ports that carry a VLAN.
    pub open spec fn carriers(&self, vlan: u16) -> Set<Seq<char>> {
        if self.vlan_ports@.dom().contains(vlan) {
            self.vlan_ports@[vlan]@.dom()
        } else {
            Set::empty()
        }
    }

    fn carrying(&self, vlan: u16) -> (r: TextSet)
        requires
            self.wf(),
        ensures
            r.wf(),
            r@.dom() == self.carriers(vlan),
    {
        match self.vlan_ports.get(&vlan) {
            Some(ports) => ports.copy(),
            None => {
                let r: TextSet = OrdMap::new();
                assert(r@.dom() =~= Set::<Seq<char>>::empty());
                r
            },
        }
    }

    /// Do two views say the same?
    pub fn same(&self, other: &L2View) -> (r: bool)
        requires
            self.wf(),
            other.wf(),
        ensures
            r == same_view(*self, *other),
    {
        check_same_sets(&self.vlan_ports, &other.vlan_ports) && check_same_sets(
            &self.po_members,
            &other.po_members,
        )
    }
}

/// Two L2 views say the same.
pub open spec fn same_view(a: L2View, b: L2View) -> bool {
    same_sets(a.vlan_ports, b.vlan_ports) && same_sets(a.po_members, b.po_members)
}

/// A trusted name stands for a port: itself, or each member where it is a
/// Port-Channel.
pub open spec fn stands_for(view: L2View, name: Seq<char>, port: Seq<char>) -> bool {
    if view.po_members@.dom().contains(name) {
        view.po_members@[name]@.dom().contains(port)
    } else {
        name == port
    }
}

/// The trusted physical set for a feature: named ports plus every
/// member of a named Port-Channel.
pub open spec fn expanded(view: L2View, trusted: Set<Seq<char>>) -> Set<Seq<char>> {
    Set::new(
        |port: Seq<char>| exists|name: Seq<char>| #[trigger]
            trusted.contains(name) && stands_for(view, name, port),
    )
}

fn expand_trusted(view: &L2View, trusted: &TextSet) -> (ports: TextSet)
    requires
        view.wf(),
        trusted.wf(),
    ensures
        ports.wf(),
        ports@.dom() == expanded(*view, trusted@.dom()),
{
    let mut ports: TextSet = OrdMap::new();
    let mut i: usize = 0;
    while i < trusted.entries.len()
        invariant
            view.wf(),
            trusted.wf(),
            ports.wf(),
            i <= trusted.entries@.len(),
            forall|p: Seq<char>| #[trigger]
                ports@.dom().contains(p) <==> exists|j: int|
                    0 <= j < i && stands_for(*view, (#[trigger] trusted.entries@[j]).0@, p),
        decreases trusted.entries@.len() - i,
    {
        let ghost before = ports@.dom();
        let ghost name = trusted.entries@[i as int].0@;
        match view.po_members.get(&trusted.entries[i].0) {
            Some(members) => ports.extend(members),
            None => {
                ports.insert(trusted.entries[i].0.clone(), ());
            },
        }
        proof {
            assert forall|p: Seq<char>| #[trigger] ports@.dom().contains(p) <==> exists|j: int|
                0 <= j < i + 1 && stands_for(*view, (#[trigger] trusted.entries@[j]).0@, p) by {
                if ports@.dom().contains(p) {
                    if before.contains(p) {
                        let j = choose|j: int|
                            0 <= j < i && stands_for(*view, (#[trigger] trusted.entries@[j]).0@, p);
                        assert(0 <= j < i + 1 && stands_for(*view, trusted.entries@[j].0@, p));
                    } else {
                        assert(stands_for(*view, trusted.entries@[i as int].0@, p));
                    }
                }
                if exists|j: int|
                    0 <= j < i + 1 && stands_for(*view, (#[trigger] trusted.entries@[j]).0@, p) {
                    let j = choose|j: int|
                        0 <= j < i + 1 && stands_for(*view, (#[trigger] trusted.entries@[j]).0@, p);
                    if j < i {
                        assert(before.contains(p));
                    }
                }
            }
        }
        i = i + 1;
    }
    proof {
        let all = expanded(*view, trusted@.dom());
        assert forall|p: Seq<char>| #[trigger] ports@.dom().contains(p) <==> all.contains(p) by {
            if ports@.dom().contains(p) {
                let j = choose|j: int|
                    0 <= j < trusted.entries@.len() && stands_for(
                        *view,
                        (#[trigger] trusted.entries@[j]).0@,
                        p,
                    );
                crate::ordmap::lemma_map_of_entry(trusted.entries@, j);
                assert(trusted@.dom().contains(trusted.entries@[j].0@));
            }
            if all.contains(p) {
                let name = choose|name: Seq<char>| #[trigger]
                    trusted@.dom().contains(name) && stands_for(*view, name, p);
                let j = choose|j: int|
                    0 <= j < trusted.entries@.len() && (#[trigger] trusted.entries@[j]).0@ == name;
                assert(stands_for(*view, trusted.entries@[j].0@, p));
            }
        }
        assert(ports@.dom() =~= all);
    }
    ports
}

// -------------------------------------------------------------- redirects

/// A redirect program as mathematical values.
#[verifier::ext_equal]
pub struct ProgramShape {
    pub dhcp: Seq<(u16, Seq<Seq<char>>, Seq<Seq<char>>)>,
    pub arp: Seq<(u16, Seq<Seq<char>>)>,
}

impl DeepView for RedirectProgram {
    type V = ProgramShape;

    open spec fn deep_view(&self) -> ProgramShape {
        ProgramShape { dhcp: self.dhcp.deep_view(), arp: self.arp.deep_view() }
    }
}

/// One snooped VLAN's redirects: its untrusted carriers trap and its
/// trusted carriers copy.
pub open spec fn is_dhcp_redirect(
    r: (u16, Seq<Seq<char>>, Seq<Seq<char>>),
    vlan: u16,
    config: Config,
    view: L2View,
) -> bool {
    let trusted = expanded(view, config.dhcp_trusted@.dom());
    &&& r.0 == vlan
    &&& crate::ordmap::lists(r.1, crate::ordmap::picked_names(view.carriers(vlan), trusted, false))
    &&& crate::ordmap::lists(r.2, crate::ordmap::picked_names(view.carriers(vlan), trusted, true))
}

/// One inspected VLAN's redirects: its untrusted carriers trap ARP.
pub open spec fn is_arp_redirect(
    r: (u16, Seq<Seq<char>>),
    vlan: u16,
    config: Config,
    view: L2View,
) -> bool {
    let trusted = expanded(view, config.arp_trusted@.dom());
    r.0 == vlan && crate::ordmap::lists(r.1, crate::ordmap::picked_names(view.carriers(vlan), trusted, false))
}

/// The redirect program of a configuration and an L2 view, VLAN by VLAN.
pub open spec fn is_program(p: ProgramShape, config: Config, view: L2View) -> bool {
    &&& p.dhcp.len() == config.dhcp_vlans.entries@.len()
    &&& p.arp.len() == config.arp_vlans.entries@.len()
    &&& forall|i: int|
        0 <= i < p.dhcp.len() ==> is_dhcp_redirect(
            #[trigger] p.dhcp[i],
            config.dhcp_vlans.entries@[i].0,
            config,
            view,
        )
    &&& forall|i: int|
        0 <= i < p.arp.len() ==> is_arp_redirect(
            #[trigger] p.arp[i],
            config.arp_vlans.entries@[i].0,
            config,
            view,
        )
}

/// A configuration and an L2 view have one redirect program.
pub proof fn lemma_program_unique(
    a: ProgramShape,
    b: ProgramShape,
    config: Config,
    view: L2View,
)
    requires
        is_program(a, config, view),
        is_program(b, config, view),
    ensures
        a == b,
{
    let dhcp = expanded(view, config.dhcp_trusted@.dom());
    let arp = expanded(view, config.arp_trusted@.dom());
    assert forall|i: int| 0 <= i < a.dhcp.len() implies a.dhcp[i] == b.dhcp[i] by {
        let vlan = config.dhcp_vlans.entries@[i].0;
        assert(is_dhcp_redirect(a.dhcp[i], vlan, config, view));
        assert(is_dhcp_redirect(b.dhcp[i], vlan, config, view));
        crate::ordmap::lemma_lists_unique(
            a.dhcp[i].1,
            b.dhcp[i].1,
            crate::ordmap::picked_names(view.carriers(vlan), dhcp, false),
        );
        crate::ordmap::lemma_lists_unique(
            a.dhcp[i].2,
            b.dhcp[i].2,
            crate::ordmap::picked_names(view.carriers(vlan), dhcp, true),
        );
    }
    assert forall|i: int| 0 <= i < a.arp.len() implies a.arp[i] == b.arp[i] by {
        let vlan = config.arp_vlans.entries@[i].0;
        assert(is_arp_redirect(a.arp[i], vlan, config, view));
        assert(is_arp_redirect(b.arp[i], vlan, config, view));
        crate::ordmap::lemma_lists_unique(
            a.arp[i].1,
            b.arp[i].1,
            crate::ordmap::picked_names(view.carriers(vlan), arp, false),
        );
    }
    assert(a.dhcp =~= b.dhcp);
    assert(a.arp =~= b.arp);
}

/// The redirect program: per snooped VLAN, its untrusted carriers trap
/// and trusted carriers copy; per inspected VLAN, untrusted carriers
/// trap ARP.
pub fn compute_redirects(config: &Config, view: &L2View) -> (program: RedirectProgram)
    requires
        config.wf(),
        view.wf(),
    ensures
        is_program(program.deep_view(), *config, *view),
{
    let dhcp_trusted = expand_trusted(view, &config.dhcp_trusted);
    let arp_trusted = expand_trusted(view, &config.arp_trusted);
    let mut dhcp: Vec<(u16, Vec<String>, Vec<String>)> = Vec::new();
    let mut i: usize = 0;
    while i < config.dhcp_vlans.entries.len()
        invariant
            view.wf(),
            dhcp_trusted.wf(),
            dhcp_trusted@.dom() == expanded(*view, config.dhcp_trusted@.dom()),
            i <= config.dhcp_vlans.entries@.len(),
            dhcp@.len() == i,
            forall|j: int|
                0 <= j < i ==> is_dhcp_redirect(
                    (#[trigger] dhcp@[j]).deep_view(),
                    config.dhcp_vlans.entries@[j].0,
                    *config,
                    *view,
                ),
        decreases config.dhcp_vlans.entries@.len() - i,
    {
        let vlan: u16 = config.dhcp_vlans.entries[i].0;
        let carriers = view.carrying(vlan);
        let untrusted = carriers.picked(&dhcp_trusted, false).names();
        let trusted = carriers.picked(&dhcp_trusted, true).names();
        dhcp.push((vlan, untrusted, trusted));
        i = i + 1;
    }
    let mut arp: Vec<(u16, Vec<String>)> = Vec::new();
    let mut k: usize = 0;
    while k < config.arp_vlans.entries.len()
        invariant
            view.wf(),
            arp_trusted.wf(),
            arp_trusted@.dom() == expanded(*view, config.arp_trusted@.dom()),
            k <= config.arp_vlans.entries@.len(),
            arp@.len() == k,
            forall|j: int|
                0 <= j < k ==> is_arp_redirect(
                    (#[trigger] arp@[j]).deep_view(),
                    config.arp_vlans.entries@[j].0,
                    *config,
                    *view,
                ),
        decreases config.arp_vlans.entries@.len() - k,
    {
        let vlan: u16 = config.arp_vlans.entries[k].0;
        let carriers = view.carrying(vlan);
        let untrusted = carriers.picked(&arp_trusted, false).names();
        arp.push((vlan, untrusted));
        k = k + 1;
    }
    let program = RedirectProgram { dhcp, arp };
    proof {
        let shape = program.deep_view();
        assert forall|i: int| 0 <= i < shape.dhcp.len() implies is_dhcp_redirect(
            #[trigger] shape.dhcp[i],
            config.dhcp_vlans.entries@[i].0,
            *config,
            *view,
        ) by {
            assert(shape.dhcp[i] == dhcp@[i].deep_view());
        }
        assert forall|i: int| 0 <= i < shape.arp.len() implies is_arp_redirect(
            #[trigger] shape.arp[i],
            config.arp_vlans.entries@[i].0,
            *config,
            *view,
        ) by {
            assert(shape.arp[i] == arp@[i].deep_view());
        }
    }
    program
}

impl RedirectProgram {
    /// Are two programs the same?
    pub fn same(&self, other: &RedirectProgram) -> (r: bool)
        ensures
            r == (self.deep_view() == other.deep_view()),
    {
        let ghost a = self.deep_view();
        let ghost b = other.deep_view();
        assert(a.dhcp.len() == self.dhcp@.len() && b.dhcp.len() == other.dhcp@.len());
        assert(a.arp.len() == self.arp@.len() && b.arp.len() == other.arp@.len());
        if self.dhcp.len() != other.dhcp.len() || self.arp.len() != other.arp.len() {
            return false;
        }
        let mut i: usize = 0;
        while i < self.dhcp.len()
            invariant
                a == self.deep_view(),
                b == other.deep_view(),
                i <= self.dhcp@.len() == other.dhcp@.len(),
                forall|j: int| 0 <= j < i ==> a.dhcp[j] == b.dhcp[j],
            decreases self.dhcp@.len() - i,
        {
            assert(a.dhcp[i as int] == self.dhcp@[i as int].deep_view());
            assert(b.dhcp[i as int] == other.dhcp@[i as int].deep_view());
            if self.dhcp[i].0 != other.dhcp[i].0 || !same_texts(
                &self.dhcp[i].1,
                &other.dhcp[i].1,
            ) || !same_texts(&self.dhcp[i].2, &other.dhcp[i].2) {
                return false;
            }
            i = i + 1;
        }
        let mut k: usize = 0;
        while k < self.arp.len()
            invariant
                a == self.deep_view(),
                b == other.deep_view(),
                k <= self.arp@.len() == other.arp@.len(),
                forall|j: int| 0 <= j < k ==> a.arp[j] == b.arp[j],
            decreases self.arp@.len() - k,
        {
            assert(a.arp[k as int] == self.arp@[k as int].deep_view());
            assert(b.arp[k as int] == other.arp@[k as int].deep_view());
            if self.arp[k].0 != other.arp[k].0 || !same_texts(&self.arp[k].1, &other.arp[k].1) {
                return false;
            }
            k = k + 1;
        }
        assert(a.dhcp =~= b.dhcp);
        assert(a.arp =~= b.arp);
        true
    }

    fn copy(&self) -> (r: RedirectProgram)
        ensures
            r.deep_view() == self.deep_view(),
    {
        let mut dhcp: Vec<(u16, Vec<String>, Vec<String>)> = Vec::new();
        let mut i: usize = 0;
        while i < self.dhcp.len()
            invariant
                i <= self.dhcp@.len(),
                dhcp@.len() == i,
                forall|j: int|
                    0 <= j < i ==> (#[trigger] dhcp@[j]).deep_view() == self.dhcp@[j].deep_view(),
            decreases self.dhcp@.len() - i,
        {
            let e = &self.dhcp[i];
            dhcp.push((e.0, copy_texts(&e.1), copy_texts(&e.2)));
            assert(dhcp@[i as int].1.deep_view() =~= self.dhcp@[i as int].1.deep_view());
            assert(dhcp@[i as int].2.deep_view() =~= self.dhcp@[i as int].2.deep_view());
            i = i + 1;
        }
        let mut arp: Vec<(u16, Vec<String>)> = Vec::new();
        let mut k: usize = 0;
        while k < self.arp.len()
            invariant
                k <= self.arp@.len(),
                arp@.len() == k,
                forall|j: int|
                    0 <= j < k ==> (#[trigger] arp@[j]).deep_view() == self.arp@[j].deep_view(),
            decreases self.arp@.len() - k,
        {
            let e = &self.arp[k];
            arp.push((e.0, copy_texts(&e.1)));
            assert(arp@[k as int].1.deep_view() =~= self.arp@[k as int].1.deep_view());
            k = k + 1;
        }
        let r = RedirectProgram { dhcp, arp };
        assert(r.deep_view().dhcp =~= self.deep_view().dhcp);
        assert(r.deep_view().arp =~= self.deep_view().arp);
        r
    }
}

// ----------------------------------------------------------------- tables

/// One dynamic binding.
#[derive(Debug, Clone)]
pub struct DynamicBinding {
    pub ip: Ipv4,
    pub interface: String,
    /// Unix seconds; the lease-tracked expiry.
    pub expires_at: u64,
}

#[derive(Debug, Clone, Copy, PartialEq, Eq)]
pub struct DhcpVlanStats {
    pub packets: u64,
    pub dropped: u64,
}

#[derive(Debug, Clone, Copy, PartialEq, Eq)]
pub struct RelayVlanStats {
    /// Client requests relayed on to the servers.
    pub to_server: u64,
    /// Server replies relayed back to the client.
    pub to_client: u64,
    pub dropped: u64,
}

#[derive(Debug, Clone, Copy, PartialEq, Eq)]
pub struct DaiVlanStats {
    pub forwarded: u64,
    pub dropped: u64,
    pub bad_binding: u64,
    pub bad_src_mac: u64,
}

/// A dynamic binding as mathematical values.
pub struct Lease {
    pub ip: Ipv4,
    pub interface: Seq<char>,
    pub expires_at: int,
}

impl DeepView for DynamicBinding {
    type V = Lease;

    open spec fn deep_view(&self) -> Lease {
        Lease {
            ip: self.ip,
            interface: self.interface@,
            expires_at: self.expires_at as int,
        }
    }
}

/// What the engine has learned and counted.
#[verifier::ext_equal]
pub struct Tables {
    /// Dynamic bindings keyed by (mac, vlan).
    pub dynamics: Map<(Seq<char>, u16), Lease>,
    /// The port a client message last arrived on.
    pub pending: Map<(Seq<char>, u16), Seq<char>>,
    pub dhcp_stats: Map<u16, DhcpVlanStats>,
    pub untrusted_server_drops: int,
    pub arp_stats: Map<u16, DaiVlanStats>,
    pub relay_stats: Map<u16, RelayVlanStats>,
}

/// The DHCP counters of a VLAN; zeros where nothing was counted yet.
pub open spec fn dhcp_at(m: Map<u16, DhcpVlanStats>, vlan: u16) -> DhcpVlanStats {
    if m.dom().contains(vlan) {
        m[vlan]
    } else {
        DhcpVlanStats { packets: 0, dropped: 0 }
    }
}

/// The ARP counters of a VLAN; zeros where nothing was counted yet.
pub open spec fn arp_at(m: Map<u16, DaiVlanStats>, vlan: u16) -> DaiVlanStats {
    if m.dom().contains(vlan) {
        m[vlan]
    } else {
        DaiVlanStats { forwarded: 0, dropped: 0, bad_binding: 0, bad_src_mac: 0 }
    }
}

/// The relay counters of a VLAN; zeros where nothing was counted yet.
pub open spec fn relay_at(m: Map<u16, RelayVlanStats>, vlan: u16) -> RelayVlanStats {
    if m.dom().contains(vlan) {
        m[vlan]
    } else {
        RelayVlanStats { to_server: 0, to_client: 0, dropped: 0 }
    }
}

/// No counter that a frame on the VLAN may raise is at its end.
pub open spec fn room(t: Tables, vlan: u16) -> bool {
    &&& t.untrusted_server_drops < u64::MAX
    &&& dhcp_at(t.dhcp_stats, vlan).packets < u64::MAX
    &&& dhcp_at(t.dhcp_stats, vlan).dropped < u64::MAX
    &&& arp_at(t.arp_stats, vlan).forwarded < u64::MAX
    &&& arp_at(t.arp_stats, vlan).dropped < u64::MAX
    &&& arp_at(t.arp_stats, vlan).bad_binding < u64::MAX
    &&& arp_at(t.arp_stats, vlan).bad_src_mac < u64::MAX
    &&& relay_at(t.relay_stats, vlan).to_server < u64::MAX
    &&& relay_at(t.relay_stats, vlan).to_client < u64::MAX
    &&& relay_at(t.relay_stats, vlan).dropped < u64::MAX
}

// ------------------------------------------------------ what a frame does

/// One more DHCP message on a VLAN.
pub open spec fn count_packet(t: Tables, vlan: u16) -> Tables {
    let s = dhcp_at(t.dhcp_stats, vlan);
    Tables {
        dhcp_stats: t.dhcp_stats.insert(
            vlan,
            DhcpVlanStats { packets: (s.packets + 1) as u64, ..s },
        ),
        ..t
    }
}

/// One more DHCP message dropped on a VLAN.
pub open spec fn count_drop(t: Tables, vlan: u16) -> Tables {
    let s = dhcp_at(t.dhcp_stats, vlan);
    Tables {
        dhcp_stats: t.dhcp_stats.insert(
            vlan,
            DhcpVlanStats { dropped: (s.dropped + 1) as u64, ..s },
        ),
        ..t
    }
}

/// A rogue server on an access port: dropped and counted.
pub open spec fn count_rogue(t: Tables, vlan: u16) -> Tables {
    Tables {
        untrusted_server_drops: t.untrusted_server_drops + 1,
        ..count_drop(t, vlan)
    }
}

pub open spec fn count_relay_drop(t: Tables, vlan: u16) -> Tables {
    let s = relay_at(t.relay_stats, vlan);
    Tables {
        relay_stats: t.relay_stats.insert(
            vlan,
            RelayVlanStats { dropped: (s.dropped + 1) as u64, ..s },
        ),
        ..t
    }
}

pub open spec fn count_to_server(t: Tables, vlan: u16) -> Tables {
    let s = relay_at(t.relay_stats, vlan);
    Tables {
        relay_stats: t.relay_stats.insert(
            vlan,
            RelayVlanStats { to_server: (s.to_server + 1) as u64, ..s },
        ),
        ..t
    }
}

pub open spec fn count_to_client(t: Tables, vlan: u16) -> Tables {
    let s = relay_at(t.relay_stats, vlan);
    Tables {
        relay_stats: t.relay_stats.insert(
            vlan,
            RelayVlanStats { to_client: (s.to_client + 1) as u64, ..s },
        ),
        ..t
    }
}

/// The interface that a lease lands on: the port the client last spoke on,
/// else the one of the binding it had, else none.
pub open spec fn client_port(t: Tables, k: (Seq<char>, u16)) -> Seq<char> {
    if t.pending.dom().contains(k) {
        t.pending[k]
    } else if t.dynamics.dom().contains(k) {
        t.dynamics[k].interface
    } else {
        Seq::empty()
    }
}

/// Is a server message an ACK that binds an address?
pub open spec fn binds(d: Seq<u8>) -> bool {
    crate::dhcp::type_in(crate::dhcp::options_of(d, 240)) == Some(5u8) && crate::bytes::word32(d, 16) != 0
}

/// The lease time of a server message; a day where it names none.
pub open spec fn lease_of(d: Seq<u8>) -> int {
    match crate::dhcp::lease_in(crate::dhcp::options_of(d, 240)) {
        Some(secs) => secs as int,
        None => 86400,
    }
}

/// The client of a BOOTP message, as the tables know it.
pub open spec fn client_of(d: Seq<u8>, vlan: u16) -> (Seq<char>, u16) {
    (crate::mac::mac_chars(d.subrange(28, 34)), vlan)
}

/// What a server message teaches: an ACK binds yiaddr to the client, a NAK
/// forgets the transaction.
pub open spec fn learned(t: Tables, d: Seq<u8>, vlan: u16, now: u64) -> Tables {
    let k = client_of(d, vlan);
    if binds(d) {
        Tables {
            dynamics: t.dynamics.insert(
                k,
                Lease {
                    ip: Ipv4 { bits: crate::bytes::word32(d, 16) },
                    interface: client_port(t, k),
                    expires_at: now + lease_of(d),
                },
            ),
            pending: t.pending.remove(k),
            ..t
        }
    } else if crate::dhcp::type_in(crate::dhcp::options_of(d, 240)) == Some(6u8) {
        Tables { pending: t.pending.remove(k), ..t }
    } else {
        t
    }
}

/// Does a client message give its lease up (RELEASE or DECLINE)?
pub open spec fn gives_up(d: Seq<u8>) -> bool {
    crate::dhcp::type_in(crate::dhcp::options_of(d, 240)) == Some(7u8) || crate::dhcp::type_in(crate::dhcp::options_of(d, 240)) == Some(4u8)
}

/// What a valid client message does: RELEASE and DECLINE drop the binding,
/// anything else is remembered by its port.
pub open spec fn heard(t: Tables, d: Seq<u8>, vlan: u16, port: Seq<char>) -> Tables {
    let k = client_of(d, vlan);
    if gives_up(d) {
        Tables { dynamics: t.dynamics.remove(k), ..t }
    } else {
        Tables { pending: t.pending.insert(k, port), ..t }
    }
}

/// Is DHCP from the port believed?
pub open spec fn dhcp_trusts(config: Config, view: L2View, port: Seq<char>) -> bool {
    expanded(view, config.dhcp_trusted@.dom()).contains(port)
        || config.dhcp_trusted@.dom().contains(port)
}

/// Is the frame a DHCP message on a snooped VLAN?
pub open spec fn snooped(config: Config, vlan: u16, frame: Seq<u8>) -> bool {
    crate::dhcp::is_dhcp(frame) && config.dhcp_vlans@.dom().contains(vlan)
}

/// Is the frame a server message on a snooped VLAN?
pub open spec fn from_server(config: Config, vlan: u16, frame: Seq<u8>) -> bool {
    snooped(config, vlan, frame) && crate::dhcp::bootp_part(frame)[0] == 2
}

/// Is the frame a client message on a snooped VLAN?
pub open spec fn from_client(config: Config, vlan: u16, frame: Seq<u8>) -> bool {
    snooped(config, vlan, frame) && crate::dhcp::bootp_part(frame)[0] != 2
}

/// Does the client hardware address match the L2 source? The check
/// catches spoofed requests.
pub open spec fn honest(frame: Seq<u8>) -> bool {
    crate::dhcp::bootp_part(frame).subrange(28, 34) == frame.subrange(6, 12)
}

/// A relay that has an address to answer at and a server to ask.
pub open spec fn can_relay(relay: RelayVlan) -> bool {
    relay.giaddr.bits != 0 && relay.servers@.len() > 0
}

/// The relay that a frame goes through: that of a validated client message
/// on a relay-enabled VLAN.
pub open spec fn relay_for(config: Config, vlan: u16, frame: Seq<u8>) -> Option<RelayVlan> {
    if from_client(config, vlan, frame) && honest(frame) && config.relay@.dom().contains(vlan) {
        Some(config.relay@[vlan])
    } else {
        None
    }
}

/// The tables after a DHCP frame.
pub open spec fn after_dhcp(
    t: Tables,
    config: Config,
    view: L2View,
    port: Seq<char>,
    vlan: u16,
    frame: Seq<u8>,
    now: u64,
) -> Tables {
    let d = crate::dhcp::bootp_part(frame);
    if !snooped(config, vlan, frame) {
        t
    } else if from_server(config, vlan, frame) {
        if dhcp_trusts(config, view, port) {
            learned(count_packet(t, vlan), d, vlan, now)
        } else {
            count_rogue(count_packet(t, vlan), vlan)
        }
    } else if !honest(frame) {
        count_drop(count_packet(t, vlan), vlan)
    } else {
        let h = heard(count_packet(t, vlan), d, vlan, port);
        match relay_for(config, vlan, frame) {
            Some(relay) => if can_relay(relay) {
                count_to_server(h, vlan)
            } else {
                count_relay_drop(h, vlan)
            },
            None => h,
        }
    }
}

/// Is the binding table to be persisted after a DHCP frame?
pub open spec fn dhcp_saves(
    config: Config,
    view: L2View,
    port: Seq<char>,
    vlan: u16,
    frame: Seq<u8>,
) -> bool {
    let d = crate::dhcp::bootp_part(frame);
    ||| from_server(config, vlan, frame) && dhcp_trusts(config, view, port) && binds(d)
    ||| from_client(config, vlan, frame) && honest(frame) && gives_up(d)
}

/// The ports that a DHCP frame is re-injected to: a validated client
/// message from an untrusted port goes toward the trusted side, unless the
/// VLAN is relayed.
pub open spec fn dhcp_targets(
    config: Config,
    view: L2View,
    port: Seq<char>,
    vlan: u16,
    frame: Seq<u8>,
) -> Set<Seq<char>> {
    if from_client(config, vlan, frame) && honest(frame) && relay_for(config, vlan, frame) is None
        && !dhcp_trusts(config, view, port) {
        crate::ordmap::picked_names(
            expanded(view, config.dhcp_trusted@.dom()),
            view.carriers(vlan),
            true,
        ).remove(port)
    } else {
        Set::empty()
    }
}

/// One BOOTP payload on its way to a relay server.
#[derive(Debug, Clone, PartialEq, Eq)]
pub struct RelayDatagram {
    pub server: Ipv4,
    /// The source address to send from — the SVI's, so the server
    /// replies to the right relay.
    pub giaddr: Ipv4,
    pub payload: Vec<u8>,
}

/// What is left to do after a frame.
pub struct Effects {
    /// Relayed requests, to be sent on.
    pub relay_out: Vec<RelayDatagram>,
    /// Re-injections: (egress port, frame).
    pub packet_out: Vec<(String, Vec<u8>)>,
    /// The binding table changed and is to be persisted.
    pub save: bool,
}

/// The ports of some re-injections.
pub open spec fn out_ports(out: Seq<(String, Vec<u8>)>) -> Seq<Seq<char>> {
    Seq::new(out.len(), |i: int| out[i].0@)
}

/// One frame goes out each port of a set, in the order of their names.
pub open spec fn floods(
    out: Seq<(String, Vec<u8>)>,
    ports: Set<Seq<char>>,
    frame: Seq<u8>,
) -> bool {
    crate::ordmap::lists(out_ports(out), ports) && forall|i: int|
        0 <= i < out.len() ==> (#[trigger] out[i]).1@ == frame
}

/// One payload goes to each server of a relay, in config order.
pub open spec fn relays(out: Seq<RelayDatagram>, relay: RelayVlan, payload: Seq<u8>) -> bool {
    out.len() == relay.servers@.len() && forall|i: int|
        0 <= i < out.len() ==> (#[trigger] out[i]).server == relay.servers@[i] && out[i].giaddr
            == relay.giaddr && out[i].payload@ == payload
}

/// What is sent on after a DHCP frame.
pub open spec fn dhcp_relays(
    out: Seq<RelayDatagram>,
    config: Config,
    vlan: u16,
    frame: Seq<u8>,
) -> bool {
    match relay_for(config, vlan, frame) {
        Some(relay) => if can_relay(relay) {
            relays(
                out,
                relay,
                crate::dhcp::relayed(
                    frame.subrange(crate::dhcp::udp_start(frame) + 8, crate::dhcp::payload_end(frame)),
                    relay.giaddr,
                ),
            )
        } else {
            out.len() == 0
        },
        None => out.len() == 0,
    }
}

// ----------------------------------------------------------------- engine

pub struct Engine {
    pub config: Config,
    pub view: L2View,
    /// Dynamic bindings keyed by (mac, vlan).
    pub dynamics: OrdMap<(String, u16), DynamicBinding>,
    /// Client port memory: the port a client message last arrived on,
    /// so the ACK's binding lands on the right interface.
    pub pending: OrdMap<(String, u16), String>,
    pub dhcp_stats: OrdMap<u16, DhcpVlanStats>,
    pub untrusted_server_drops: u64,
    pub arp_stats: OrdMap<u16, DaiVlanStats>,
    pub pushed_redirects: Option<RedirectProgram>,
    pub relay_stats: OrdMap<u16, RelayVlanStats>,
    /// The switch MAC, used as the source of relayed replies.
    pub system_mac: [u8; 6],
}

/// A binding table as mathematical values.
pub open spec fn leases(m: OrdMap<(String, u16), DynamicBinding>) -> Map<(Seq<char>, u16), Lease> {
    Map::new(
        |k: (Seq<char>, u16)| m@.dom().contains(k),
        |k: (Seq<char>, u16)| m@[k].deep_view(),
    )
}

/// The port memory as mathematical values.
pub open spec fn ports_view(m: OrdMap<(String, u16), String>) -> Map<(Seq<char>, u16), Seq<char>> {
    Map::new(|k: (Seq<char>, u16)| m@.dom().contains(k), |k: (Seq<char>, u16)| m@[k]@)
}

fn no_effects() -> (r: Effects)
    ensures
        r.relay_out@.len() == 0,
        r.packet_out@.len() == 0,
        !r.save,
{
    Effects { relay_out: Vec::new(), packet_out: Vec::new(), save: false }
}

/// Send a frame out each port of a set.
fn flood(ports: &TextSet, frame: &[u8]) -> (out: Vec<(String, Vec<u8>)>)
    requires
        ports.wf(),
    ensures
        floods(out@, ports@.dom(), frame@),
{
    let names = ports.names();
    let mut out: Vec<(String, Vec<u8>)> = Vec::new();
    let mut i: usize = 0;
    while i < names.len()
        invariant
            i <= names@.len(),
            out@.len() == i,
            forall|j: int|
                0 <= j < i ==> (#[trigger] out@[j]).0@ == names@[j]@ && out@[j].1@ == frame@,
        decreases names@.len() - i,
    {
        let bytes = copy_bytes(frame, 0, frame.len());
        assert(bytes@ =~= frame@);
        out.push((names[i].clone(), bytes));
        i = i + 1;
    }
    assert(out_ports(out@) =~= names.deep_view());
    out
}

/// Nothing goes out.
proof fn lemma_no_flood(out: Seq<(String, Vec<u8>)>, frame: Seq<u8>)
    requires
        out.len() == 0,
    ensures
        floods(out, Set::empty(), frame),
{
    assert(crate::ordmap::name_set(out_ports(out)) =~= Set::<Seq<char>>::empty());
}

impl Engine {
    pub open spec fn wf(&self) -> bool {
        self.config.wf() && self.view.wf() && self.dynamics.wf() && self.pending.wf()
            && self.dhcp_stats.wf() && self.arp_stats.wf() && self.relay_stats.wf()
    }

    /// What the engine has learned and counted.
    pub open spec fn tables(&self) -> Tables {
        Tables {
            dynamics: leases(self.dynamics),
            pending: ports_view(self.pending),
            dhcp_stats: self.dhcp_stats@,
            untrusted_server_drops: self.untrusted_server_drops as int,
            arp_stats: self.arp_stats@,
            relay_stats: self.relay_stats@,
        }
    }

    /// The setup of two engines is the same.
    pub open spec fn same_setup(&self, other: &Engine) -> bool {
        self.config == other.config && self.view == other.view && self.pushed_redirects
            == other.pushed_redirects && self.system_mac == other.system_mac
    }

    /// `dynamics` = the bindings that were persisted (see `restore`).
    pub fn spawn(
        dynamics: OrdMap<(String, u16), DynamicBinding>,
        system_mac: [u8; 6],
    ) -> (r: Engine)
        requires
            dynamics.wf(),
        ensures
            r.wf(),
            r.dynamics == dynamics,
            r.system_mac == system_mac,
            r.config.dhcp_vlans.entries@.len() == 0,
            r.config.arp_vlans.entries@.len() == 0,
            r.config.relay.entries@.len() == 0,
            r.config.statics.entries@.len() == 0,
            r.config.validate.entries@.len() == 0,
            r.config.dhcp_trusted.entries@.len() == 0,
            r.config.arp_trusted.entries@.len() == 0,
            r.view.vlan_ports.entries@.len() == 0,
            r.view.po_members.entries@.len() == 0,
            r.pushed_redirects is None,
            r.pending@ == Map::<(Seq<char>, u16), String>::empty(),
            r.dhcp_stats@ == Map::<u16, DhcpVlanStats>::empty(),
            r.arp_stats@ == Map::<u16, DaiVlanStats>::empty(),
            r.relay_stats@ == Map::<u16, RelayVlanStats>::empty(),
            r.untrusted_server_drops == 0,
    {
        Engine {
            config: Config::default(),
            view: L2View::default(),
            dynamics,
            pending: OrdMap::new(),
            dhcp_stats: OrdMap::new(),
            untrusted_server_drops: 0,
            arp_stats: OrdMap::new(),
            pushed_redirects: None,
            relay_stats: OrdMap::new(),
            system_mac,
        }
    }

    /// Recompute and (change-gated) emit the redirect program.
    fn push_redirects(&mut self) -> (r: Option<RedirectProgram>)
        requires
            old(self).wf(),
        ensures
            final(self).wf(),
            final(self).tables() == old(self).tables(),
            final(self).config == old(self).config,
            final(self).view == old(self).view,
            final(self).system_mac == old(self).system_mac,
            gated(
                r,
                old(self).pushed_redirects,
                final(self).pushed_redirects,
                final(self).config,
                final(self).view,
            ),
    {
        let program = compute_redirects(&self.config, &self.view);
        match &self.pushed_redirects {
            Some(pushed) => {
                if pushed.same(&program) {
                    return None;
                }
            },
            None => {},
        }
        self.pushed_redirects = Some(program.copy());
        Some(program)
    }

    /// Replace the configuration; what comes back is the redirect program
    /// to push, where it changed.
    pub fn set_config(&mut self, config: Config) -> (r: Option<RedirectProgram>)
        requires
            old(self).wf(),
            config.wf(),
        ensures
            final(self).wf(),
            final(self).tables() == old(self).tables(),
            final(self).view == old(self).view,
            final(self).system_mac == old(self).system_mac,
            if same_config(old(self).config, config) {
                r is None && *final(self) == *old(self)
            } else {
                final(self).config == config && gated(
                    r,
                    old(self).pushed_redirects,
                    final(self).pushed_redirects,
                    config,
                    old(self).view,
                )
            },
    {
        if self.config.same(&config) {
            return None;
        }
        // Bindings on VLANs no longer snooped age out naturally.
        self.config = config;
        self.push_redirects()
    }

    /// Replace the L2 view; what comes back is the redirect program to
    /// push, where it changed.
    pub fn set_l2_view(&mut self, view: L2View) -> (r: Option<RedirectProgram>)
        requires
            old(self).wf(),
            view.wf(),
        ensures
            final(self).wf(),
            final(self).tables() == old(self).tables(),
            final(self).config == old(self).config,
            final(self).system_mac == old(self).system_mac,
            if same_view(old(self).view, view) {
                r is None && *final(self) == *old(self)
            } else {
                final(self).view == view && gated(
                    r,
                    old(self).pushed_redirects,
                    final(self).pushed_redirects,
                    old(self).config,
                    view,
                )
            },
    {
        if self.view.same(&view) {
            return None;
        }
        self.view = view;
        self.push_redirects()
    }

    // ---------------------------------------------------------- counters

    fn dhcp_counts(&self, vlan: u16) -> (s: DhcpVlanStats)
        requires
            self.wf(),
        ensures
            s == dhcp_at(self.tables().dhcp_stats, vlan),
    {
        match self.dhcp_stats.get(&vlan) {
            Some(s) => *s,
            None => DhcpVlanStats { packets: 0, dropped: 0 },
        }
    }

    fn arp_counts(&self, vlan: u16) -> (s: DaiVlanStats)
        requires
            self.wf(),
        ensures
            s == arp_at(self.tables().arp_stats, vlan),
    {
        match self.arp_stats.get(&vlan) {
            Some(s) => *s,
            None => DaiVlanStats { forwarded: 0, dropped: 0, bad_binding: 0, bad_src_mac: 0 },
        }
    }

    fn relay_counts(&self, vlan: u16) -> (s: RelayVlanStats)
        requires
            self.wf(),
        ensures
            s == relay_at(self.tables().relay_stats, vlan),
    {
        match self.relay_stats.get(&vlan) {
            Some(s) => *s,
            None => RelayVlanStats { to_server: 0, to_client: 0, dropped: 0 },
        }
    }

    /// Can a frame on the VLAN be counted?
    pub fn has_room(&self, vlan: u16) -> (r: bool)
        requires
            self.wf(),
        ensures
            r == room(self.tables(), vlan),
    {
        let d = self.dhcp_counts(vlan);
        let a = self.arp_counts(vlan);
        let r = self.relay_counts(vlan);
        self.untrusted_server_drops < u64::MAX && d.packets < u64::MAX && d.dropped < u64::MAX
            && a.forwarded < u64::MAX && a.dropped < u64::MAX && a.bad_binding < u64::MAX
            && a.bad_src_mac < u64::MAX && r.to_server < u64::MAX && r.to_client < u64::MAX
            && r.dropped < u64::MAX
    }

    fn note_packet(&mut self, vlan: u16)
        requires
            old(self).wf(),
            room(old(self).tables(), vlan),
        ensures
            final(self).wf(),
            final(self).same_setup(old(self)),
            final(self).tables() == count_packet(old(self).tables(), vlan),
    {
        let s = self.dhcp_counts(vlan);
        self.dhcp_stats.insert(
            vlan,
            DhcpVlanStats { packets: s.packets + 1, dropped: s.dropped },
        );
    }

    fn note_drop(&mut self, vlan: u16)
        requires
            old(self).wf(),
            dhcp_at(old(self).tables().dhcp_stats, vlan).dropped < u64::MAX,
        ensures
            final(self).wf(),
            final(self).same_setup(old(self)),
            final(self).tables() == count_drop(old(self).tables(), vlan),
    {
        let s = self.dhcp_counts(vlan);
        self.dhcp_stats.insert(
            vlan,
            DhcpVlanStats { packets: s.packets, dropped: s.dropped + 1 },
        );
    }

    fn note_relay_drop(&mut self, vlan: u16)
        requires
            old(self).wf(),
            relay_at(old(self).tables().relay_stats, vlan).dropped < u64::MAX,
        ensures
            final(self).wf(),
            final(self).same_setup(old(self)),
            final(self).tables() == count_relay_drop(old(self).tables(), vlan),
    {
        let s = self.relay_counts(vlan);
        self.relay_stats.insert(
            vlan,
            RelayVlanStats {
                to_server: s.to_server,
                to_client: s.to_client,
                dropped: s.dropped + 1,
            },
        );
    }

    fn note_to_server(&mut self, vlan: u16)
        requires
            old(self).wf(),
            relay_at(old(self).tables().relay_stats, vlan).to_server < u64::MAX,
        ensures
            final(self).wf(),
            final(self).same_setup(old(self)),
            final(self).tables() == count_to_server(old(self).tables(), vlan),
    {
        let s = self.relay_counts(vlan);
        self.relay_stats.insert(
            vlan,
            RelayVlanStats {
                to_server: s.to_server + 1,
                to_client: s.to_client,
                dropped: s.dropped,
            },
        );
    }

    fn note_to_client(&mut self, vlan: u16)
        requires
            old(self).wf(),
            relay_at(old(self).tables().relay_stats, vlan).to_client < u64::MAX,
        ensures
            final(self).wf(),
            final(self).same_setup(old(self)),
            final(self).tables() == count_to_client(old(self).tables(), vlan),
    {
        let s = self.relay_counts(vlan);
        self.relay_stats.insert(
            vlan,
            RelayVlanStats {
                to_server: s.to_server,
                to_client: s.to_client + 1,
                dropped: s.dropped,
            },
        );
    }

    // ------------------------------------------------------------- leases

    /// Take what a server message teaches; true where it bound an address.
    fn learn(
        &mut self,
        chaddr: [u8; 6],
        yiaddr: Ipv4,
        message_type: Option<u8>,
        lease_secs: Option<u32>,
        vlan: u16,
        now: u64,
        d: Ghost<Seq<u8>>,
    ) -> (bound: bool)
        requires
            old(self).wf(),
            now + 0xffff_ffff <= u64::MAX,
            chaddr@ == d@.subrange(28, 34),
            yiaddr.bits == crate::bytes::word32(d@, 16),
            message_type == crate::dhcp::type_in(crate::dhcp::options_of(d@, 240)),
            lease_secs == crate::dhcp::lease_in(crate::dhcp::options_of(d@, 240)),
        ensures
            final(self).wf(),
            final(self).same_setup(old(self)),
            final(self).tables() == learned(old(self).tables(), d@, vlan, now),
            bound == binds(d@),
    {
        let ghost before = self.tables();
        let mac = mac_text(chaddr.as_slice());
        let ghost k = client_of(d@, vlan);
        let key = (mac, vlan);
        assert(key@ == k);
        match message_type {
            Some(5) => {
                if yiaddr.is_unspecified() {
                    return false;
                }
                let interface = match self.pending.remove(&key) {
                    Some(port) => port,
                    None => match self.dynamics.get(&key) {
                        Some(b) => b.interface.clone(),
                        None => String::new(),
                    },
                };
                assert(interface@ =~= client_port(before, k));
                let lease: u32 = match lease_secs {
                    Some(secs) => secs,
                    None => 86400,
                };
                let binding = DynamicBinding {
                    ip: yiaddr,
                    interface,
                    expires_at: now + lease as u64,
                };
                let ghost value = binding.deep_view();
                self.dynamics.insert(key, binding);
                assert(self.tables().dynamics =~= before.dynamics.insert(k, value));
                assert(self.tables().pending =~= before.pending.remove(k));
                true
            },
            Some(6) => {
                self.pending.remove(&key);
                assert(self.tables().pending =~= before.pending.remove(k));
                false
            },
            _ => false,
        }
    }

    /// Take a valid client message; true where it gave its lease up.
    fn hear(
        &mut self,
        chaddr: [u8; 6],
        message_type: Option<u8>,
        vlan: u16,
        port: &str,
        d: Ghost<Seq<u8>>,
    ) -> (released: bool)
        requires
            old(self).wf(),
            chaddr@ == d@.subrange(28, 34),
            message_type == crate::dhcp::type_in(crate::dhcp::options_of(d@, 240)),
        ensures
            final(self).wf(),
            final(self).same_setup(old(self)),
            final(self).tables() == heard(old(self).tables(), d@, vlan, port@),
            released == gives_up(d@),
    {
        let ghost before = self.tables();
        let ghost k = client_of(d@, vlan);
        let key = (mac_text(chaddr.as_slice()), vlan);
        assert(key@ == k);
        let released = match message_type {
            Some(7) => true,
            Some(4) => true,
            _ => false,
        };
        if released {
            self.dynamics.remove(&key);
            assert(self.tables().dynamics =~= before.dynamics.remove(k));
        } else {
            let held = port.to_owned();
            self.pending.insert(key, held);
            assert(self.tables().pending =~= before.pending.insert(k, port@));
        }
        released
    }

    // ------------------------------------------------------------- frames

    /// A trapped or copied frame: (ingress port, VLAN, frame), at `now` in
    /// Unix seconds.
    pub fn handle_frame(&mut self, port: &str, vlan: u16, frame: &[u8], now: u64) -> (r: Effects)
        requires
            old(self).wf(),
            room(old(self).tables(), vlan),
            now + 0xffff_ffff <= u64::MAX,
        ensures
            final(self).wf(),
            final(self).same_setup(old(self)),
            ({
                let t = old(self).tables();
                let config = old(self).config;
                let view = old(self).view;
                if frame@.len() >= 14 && crate::bytes::word16(frame@, 12) == 0x0806 {
                    &&& final(self).tables() == after_arp(t, config, vlan, frame@)
                    &&& floods(
                        r.packet_out@,
                        arp_targets(t, config, view, port@, vlan, frame@),
                        frame@,
                    )
                    &&& r.relay_out@.len() == 0
                    &&& !r.save
                } else if frame@.len() >= 14 && crate::bytes::word16(frame@, 12) == 0x0800 {
                    &&& final(self).tables() == after_dhcp(
                        t,
                        config,
                        view,
                        port@,
                        vlan,
                        frame@,
                        now,
                    )
                    &&& floods(
                        r.packet_out@,
                        dhcp_targets(config, view, port@, vlan, frame@),
                        frame@,
                    )
                    &&& dhcp_relays(r.relay_out@, config, vlan, frame@)
                    &&& r.save == dhcp_saves(config, view, port@, vlan, frame@)
                } else {
                    &&& final(self).tables() == t
                    &&& r.packet_out@.len() == 0
                    &&& r.relay_out@.len() == 0
                    &&& !r.save
                }
            }),
    {
        if frame.len() < 14 {
            return no_effects();
        }
        let ethertype: u16 = read16(frame, 12);
        if ethertype == 0x0806 {
            let packet_out = self.handle_arp(port, vlan, frame);
            Effects { relay_out: Vec::new(), packet_out, save: false }
        } else if ethertype == 0x0800 {
            self.handle_dhcp(port, vlan, frame, now)
        } else {
            no_effects()
        }
    }

    fn handle_dhcp(&mut self, port: &str, vlan: u16, frame: &[u8], now: u64) -> (r: Effects)
        requires
            old(self).wf(),
            room(old(self).tables(), vlan),
            now + 0xffff_ffff <= u64::MAX,
        ensures
            final(self).wf(),
            final(self).same_setup(old(self)),
            final(self).tables() == after_dhcp(
                old(self).tables(),
                old(self).config,
                old(self).view,
                port@,
                vlan,
                frame@,
                now,
            ),
            floods(
                r.packet_out@,
                dhcp_targets(old(self).config, old(self).view, port@, vlan, frame@),
                frame@,
            ),
            dhcp_relays(r.relay_out@, old(self).config, vlan, frame@),
            r.save == dhcp_saves(old(self).config, old(self).view, port@, vlan, frame@),
    {
        let ghost d = crate::dhcp::bootp_part(frame@);
        let quiet = no_effects();
        proof {
            lemma_no_flood(quiet.packet_out@, frame@);
        }
        let dhcp = match parse_dhcp(frame) {
            Some(m) => m,
            None => return quiet,
        };
        if !self.config.dhcp_vlans.contains(&vlan) {
            return quiet;
        }
        let trusted_ports = expand_trusted(&self.view, &self.config.dhcp_trusted);
        let trusted = trusted_ports.has(port) || self.config.dhcp_trusted.has(port);
        self.note_packet(vlan);
        if dhcp.is_reply {
            if !trusted {
                // A rogue server on an access port: dropped in the
                // dataplane (the trap took it), counted here.
                self.note_drop(vlan);
                self.untrusted_server_drops = self.untrusted_server_drops + 1;
                return quiet;
            }
            // A copied server message from a trusted port: hardware
            // already forwarded it — only the binding learn happens
            // here.
            let save = self.learn(
                dhcp.chaddr,
                dhcp.yiaddr,
                dhcp.message_type,
                dhcp.lease_secs,
                vlan,
                now,
                Ghost(d),
            );
            return Effects { relay_out: quiet.relay_out, packet_out: quiet.packet_out, save };
        }
        // A trapped client message from an untrusted port (or a copied
        // one from a trusted port). The chaddr/src-mac check catches
        // spoofed requests.
        let src = crate::bytes::read_mac(frame, 6);
        if !same_mac(dhcp.chaddr, src) {
            self.note_drop(vlan);
            return quiet;
        }
        let save = self.hear(dhcp.chaddr, dhcp.message_type, vlan, port, Ghost(d));
        // A relay-enabled VLAN sends the validated request on to the
        // servers rather than (only) flooding it toward a trusted port:
        // the whole point is that there is no server in this broadcast
        // domain. The chaddr check above has already run, so nothing
        // unvalidated is ever relayed.
        let relay = match self.config.relay.get(&vlan) {
            Some(relay) => Some(copy_relay(relay)),
            None => None,
        };
        match relay {
            Some(relay) => {
                if relay.giaddr.is_unspecified() || relay.servers.len() == 0 {
                    // Config that cannot relay: counted, not silently lost.
                    self.note_relay_drop(vlan);
                    return Effects {
                        relay_out: quiet.relay_out,
                        packet_out: quiet.packet_out,
                        save,
                    };
                }
                match bootp_payload(frame) {
                    Some(payload) => {
                        let sent = with_giaddr(payload.as_slice(), relay.giaddr);
                        self.note_to_server(vlan);
                        let relay_out = fan_out(&relay, &sent);
                        Effects { relay_out, packet_out: quiet.packet_out, save }
                    },
                    None => quiet,
                }
            },
            None => {
                if trusted {
                    // Copies from trusted ports already forwarded in
                    // hardware.
                    return Effects {
                        relay_out: quiet.relay_out,
                        packet_out: quiet.packet_out,
                        save,
                    };
                }
                // Re-inject the validated request toward the trusted side.
                let carriers = self.view.carrying(vlan);
                let targets = trusted_ports.picked(&carriers, true).without(port);
                let packet_out = flood(&targets, frame);
                Effects { relay_out: quiet.relay_out, packet_out, save }
            },
        }
    }
}

/// Was the redirect program emitted as it should be? It is emitted where it
/// is not the one that was pushed last, and is then the one pushed last.
pub open spec fn gated(
    r: Option<RedirectProgram>,
    was: Option<RedirectProgram>,
    next: Option<RedirectProgram>,
    config: Config,
    view: L2View,
) -> bool {
    match r {
        Some(p) => {
            &&& is_program(p.deep_view(), config, view)
            &&& was matches Some(q) ==> q.deep_view() != p.deep_view()
            &&& next matches Some(q) && q.deep_view() == p.deep_view()
        },
        None => {
            &&& was == next
            &&& was matches Some(q) && is_program(q.deep_view(), config, view)
        },
    }
}

fn copy_relay(relay: &RelayVlan) -> (r: RelayVlan)
    ensures
        r.giaddr == relay.giaddr,
        r.servers@ == relay.servers@,
{
    let mut servers: Vec<Ipv4> = Vec::new();
    let mut i: usize = 0;
    while i < relay.servers.len()
        invariant
            i <= relay.servers@.len(),
            servers@ == relay.servers@.take(i as int),
        decreases relay.servers@.len() - i,
    {
        servers.push(relay.servers[i]);
        i = i + 1;
        assert(servers@ =~= relay.servers@.take(i as int));
    }
    assert(servers@ =~= relay.servers@);
    RelayVlan { servers, giaddr: relay.giaddr }
}

/// One datagram per server.
fn fan_out(relay: &RelayVlan, payload: &Vec<u8>) -> (out: Vec<RelayDatagram>)
    ensures
        relays(out@, *relay, payload@),
{
    let mut out: Vec<RelayDatagram> = Vec::new();
    let mut i: usize = 0;
    while i < relay.servers.len()
        invariant
            i <= relay.servers@.len(),
            out@.len() == i,
            forall|j: int|
                0 <= j < i ==> (#[trigger] out@[j]).server == relay.servers@[j] && out@[j].giaddr
                    == relay.giaddr && out@[j].payload@ == payload@,
        decreases relay.servers@.len() - i,
    {
        let bytes = copy_bytes(payload.as_slice(), 0, payload.len());
        assert(bytes@ =~= payload@);
        out.push(
            RelayDatagram { server: relay.servers[i], giaddr: relay.giaddr, payload: bytes },
        );
        i = i + 1;
    }
    out
}

// ------------------------------------------------------------------- DAI

/// What becomes of an ARP message.
pub enum Verdict {
    /// Not ARP, or not on an inspected VLAN.
    NotInspected,
    BadSrcMac,
    BadTarget,
    BadIp,
    BadBinding,
    Forward,
}

/// Is a check in force? Without any configured, src-mac is.
pub open spec fn checked(config: Config, check: Validate) -> bool {
    if config.validate.entries@.len() == 0 {
        check == Validate::SrcMac
    } else {
        config.validate@.dom().contains(check)
    }
}

/// Can an address not be a sender's?
pub open spec fn bad_sender(spa: Ipv4, is_reply: bool) -> bool {
    ||| spa.bits == 0xffff_ffff
    ||| spa.spec_multicast()
    ||| spa.bits / 0x100_0000 == 127
    ||| (is_reply && spa.bits == 0)
}

/// Does the sender hold the address? The snooping table decides, and a
/// static binding where the table has none.
pub open spec fn holds_address(t: Tables, config: Config, k: (Seq<char>, u16), ip: Ipv4) -> bool {
    if t.dynamics.dom().contains(k) {
        t.dynamics[k].ip == ip
    } else if config.statics@.dom().contains(k) {
        config.statics@[k].ip == ip
    } else {
        false
    }
}

/// What becomes of a frame under ARP inspection.
pub open spec fn verdict(t: Tables, config: Config, vlan: u16, frame: Seq<u8>) -> Verdict {
    let sender = crate::mac::mac_chars(frame.subrange(22, 28));
    let spa = Ipv4 { bits: crate::bytes::word32(frame, 28) };
    let is_reply = crate::bytes::word16(frame, 20) == 2;
    if !crate::dhcp::is_arp(frame) || !config.arp_vlans@.dom().contains(vlan) {
        Verdict::NotInspected
    } else if checked(config, Validate::SrcMac) && sender != crate::mac::mac_chars(frame.subrange(6, 12)) {
        Verdict::BadSrcMac
    } else if checked(config, Validate::DstMac) && is_reply && crate::mac::mac_chars(frame.subrange(32, 38))
        != crate::mac::mac_chars(frame.subrange(0, 6)) {
        Verdict::BadTarget
    } else if checked(config, Validate::Ip) && bad_sender(spa, is_reply) {
        Verdict::BadIp
    } else if !holds_address(t, config, (sender, vlan), spa) {
        Verdict::BadBinding
    } else {
        Verdict::Forward
    }
}

/// The counters of a VLAN after a verdict.
pub open spec fn judged(s: DaiVlanStats, v: Verdict) -> DaiVlanStats {
    match v {
        Verdict::NotInspected => s,
        Verdict::BadSrcMac => DaiVlanStats {
            dropped: (s.dropped + 1) as u64,
            bad_src_mac: (s.bad_src_mac + 1) as u64,
            ..s
        },
        Verdict::BadTarget => DaiVlanStats { dropped: (s.dropped + 1) as u64, ..s },
        Verdict::BadIp => DaiVlanStats { dropped: (s.dropped + 1) as u64, ..s },
        Verdict::BadBinding => DaiVlanStats {
            dropped: (s.dropped + 1) as u64,
            bad_binding: (s.bad_binding + 1) as u64,
            ..s
        },
        Verdict::Forward => DaiVlanStats { forwarded: (s.forwarded + 1) as u64, ..s },
    }
}

/// The tables after an ARP frame.
pub open spec fn after_arp(t: Tables, config: Config, vlan: u16, frame: Seq<u8>) -> Tables {
    let v = verdict(t, config, vlan, frame);
    if v is NotInspected {
        t
    } else {
        Tables {
            arp_stats: t.arp_stats.insert(vlan, judged(arp_at(t.arp_stats, vlan), v)),
            ..t
        }
    }
}

/// The ports that an ARP frame is re-injected to: a valid one is flooded
/// within its VLAN.
pub open spec fn arp_targets(
    t: Tables,
    config: Config,
    view: L2View,
    port: Seq<char>,
    vlan: u16,
    frame: Seq<u8>,
) -> Set<Seq<char>> {
    if verdict(t, config, vlan, frame) is Forward {
        view.carriers(vlan).remove(port)
    } else {
        Set::empty()
    }
}

impl Config {
    fn checks(&self, check: Validate) -> (r: bool)
        requires
            self.wf(),
        ensures
            r == checked(*self, check),
    {
        if self.validate.entries.len() == 0 {
            check == Validate::SrcMac
        } else {
            self.validate.contains(&check)
        }
    }
}

impl Engine {
    /// Does the sender hold the address?
    fn bound(&self, mac: String, vlan: u16, ip: Ipv4) -> (r: bool)
        requires
            self.wf(),
        ensures
            r == holds_address(self.tables(), self.config, (mac@, vlan), ip),
    {
        let key = (mac, vlan);
        assert(key@ == (mac@, vlan));
        match self.dynamics.get(&key) {
            Some(b) => b.ip == ip,
            None => match self.config.statics.get(&key) {
                Some(b) => b.ip == ip,
                None => false,
            },
        }
    }

    /// What becomes of an ARP frame.
    fn judge(&self, vlan: u16, frame: &[u8]) -> (v: Verdict)
        requires
            self.wf(),
        ensures
            v == verdict(self.tables(), self.config, vlan, frame@),
    {
        let arp = match parse_arp(frame) {
            Some(arp) => arp,
            None => return Verdict::NotInspected,
        };
        if !self.config.arp_vlans.contains(&vlan) {
            return Verdict::NotInspected;
        }
        let src_mac = mac_text(crate::bytes::read_mac(frame, 6).as_slice());
        let sender_mac = mac_text(arp.sha.as_slice());
        if self.config.checks(Validate::SrcMac) && !same_text(
            sender_mac.as_str(),
            src_mac.as_str(),
        ) {
            return Verdict::BadSrcMac;
        }
        if self.config.checks(Validate::DstMac) && arp.is_reply {
            let target_mac = mac_text(arp.tha.as_slice());
            let dst_mac = mac_text(crate::bytes::read_mac(frame, 0).as_slice());
            if !same_text(target_mac.as_str(), dst_mac.as_str()) {
                return Verdict::BadTarget;
            }
        }
        if self.config.checks(Validate::Ip) {
            let bad_ip = arp.spa.is_broadcast() || arp.spa.is_multicast() || arp.spa.is_loopback()
                || (arp.is_reply && arp.spa.is_unspecified());
            if bad_ip {
                return Verdict::BadIp;
            }
        }
        // The binding check: the sender (MAC, VLAN) must hold sender IP
        // per the snooping table or a static.
        if self.bound(sender_mac, vlan, arp.spa) {
            Verdict::Forward
        } else {
            Verdict::BadBinding
        }
    }

    fn note_verdict(&mut self, vlan: u16, v: &Verdict)
        requires
            old(self).wf(),
            room(old(self).tables(), vlan),
            !(*v is NotInspected),
        ensures
            final(self).wf(),
            final(self).same_setup(old(self)),
            final(self).tables() == (Tables {
                arp_stats: old(self).tables().arp_stats.insert(
                    vlan,
                    judged(arp_at(old(self).tables().arp_stats, vlan), *v),
                ),
                ..old(self).tables()
            }),
    {
        let s = self.arp_counts(vlan);
        let next = match v {
            Verdict::NotInspected => s,
            Verdict::BadSrcMac => DaiVlanStats {
                dropped: s.dropped + 1,
                bad_src_mac: s.bad_src_mac + 1,
                ..s
            },
            Verdict::BadTarget => DaiVlanStats { dropped: s.dropped + 1, ..s },
            Verdict::BadIp => DaiVlanStats { dropped: s.dropped + 1, ..s },
            Verdict::BadBinding => DaiVlanStats {
                dropped: s.dropped + 1,
                bad_binding: s.bad_binding + 1,
                ..s
            },
            Verdict::Forward => DaiVlanStats { forwarded: s.forwarded + 1, ..s },
        };
        self.arp_stats.insert(vlan, next);
    }

    fn handle_arp(&mut self, port: &str, vlan: u16, frame: &[u8]) -> (out: Vec<(String, Vec<u8>)>)
        requires
            old(self).wf(),
            room(old(self).tables(), vlan),
        ensures
            final(self).wf(),
            final(self).same_setup(old(self)),
            final(self).tables() == after_arp(
                old(self).tables(),
                old(self).config,
                vlan,
                frame@,
            ),
            floods(
                out@,
                arp_targets(
                    old(self).tables(),
                    old(self).config,
                    old(self).view,
                    port@,
                    vlan,
                    frame@,
                ),
                frame@,
            ),
    {
        let nothing: Vec<(String, Vec<u8>)> = Vec::new();
        proof {
            lemma_no_flood(nothing@, frame@);
        }
        let v = self.judge(vlan, frame);
        match v {
            Verdict::NotInspected => nothing,
            Verdict::Forward => {
                self.note_verdict(vlan, &v);
                // Valid: re-inject within the VLAN (flooded; the FDB
                // delivers unicast replies to everyone carrying the VLAN,
                // which is what a flood does anyway at this rate).
                let targets = self.view.carrying(vlan).without(port);
                flood(&targets, frame)
            },
            _ => {
                self.note_verdict(vlan, &v);
                nothing
            },
        }
    }
}

// ------------------------------------------------------------ relay reply

/// The VLAN, of the entries from `from` on, whose relay owns an address.
pub open spec fn relay_owner(
    relays: Seq<(u16, RelayVlan)>,
    giaddr: Ipv4,
    from: int,
) -> Option<u16>
    decreases relays.len() - from,
{
    if from < 0 || from >= relays.len() {
        None
    } else if relays[from].1.giaddr == giaddr {
        Some(relays[from].0)
    } else {
        relay_owner(relays, giaddr, from + 1)
    }
}

/// Is a payload a server's reply?
pub open spec fn is_server_reply(payload: Seq<u8>) -> bool {
    crate::dhcp::has_cookie(payload) && payload[0] == 2
}

/// The tables after a reply on the relay socket.
pub open spec fn after_reply(t: Tables, vlan: u16, payload: Seq<u8>, now: u64) -> Tables {
    if is_server_reply(payload) {
        count_to_client(learned(t, payload, vlan, now), vlan)
    } else {
        count_relay_drop(t, vlan)
    }
}

/// The port that a reply goes to alone: that of the client's binding, for a
/// client that did not ask for a broadcast.
pub open spec fn reply_port(t: Tables, vlan: u16, payload: Seq<u8>) -> Option<Seq<char>> {
    let k = client_of(payload, vlan);
    if payload[10] < 128 && t.dynamics.dom().contains(k) && t.dynamics[k].interface.len() > 0 {
        Some(t.dynamics[k].interface)
    } else {
        None
    }
}

/// The ports that a reply is sent to: the client's own, else every port
/// that carries the VLAN — a station that has no address cannot receive a
/// unicast.
pub open spec fn reply_targets(
    t: Tables,
    view: L2View,
    vlan: u16,
    payload: Seq<u8>,
) -> Set<Seq<char>> {
    match reply_port(t, vlan, payload) {
        Some(port) => Set::empty().insert(port),
        None => view.carriers(vlan),
    }
}

impl Engine {
    /// The VLAN whose relay owns an address.
    pub fn relay_vlan(&self, giaddr: Ipv4) -> (r: Option<u16>)
        ensures
            r == relay_owner(self.config.relay.entries@, giaddr, 0),
    {
        let mut i: usize = 0;
        while i < self.config.relay.entries.len()
            invariant
                i <= self.config.relay.entries@.len(),
                relay_owner(self.config.relay.entries@, giaddr, 0) == relay_owner(
                    self.config.relay.entries@,
                    giaddr,
                    i as int,
                ),
            decreases self.config.relay.entries@.len() - i,
        {
            if self.config.relay.entries[i].1.giaddr == giaddr {
                return Some(self.config.relay.entries[i].0);
            }
            i = i + 1;
        }
        None
    }

    /// One server reply arriving on the relay socket, addressed to a
    /// giaddr. The VLAN is whichever relay-enabled SVI owns that
    /// address; anything else is a reply for a relay we do not run.
    pub fn handle_relay_reply(&mut self, giaddr: Ipv4, payload: &[u8], now: u64) -> (r: Effects)
        requires
            old(self).wf(),
            relay_owner(old(self).config.relay.entries@, giaddr, 0) matches Some(vlan) ==> room(
                old(self).tables(),
                vlan,
            ),
            now + 0xffff_ffff <= u64::MAX,
            payload@.len() + 42 <= usize::MAX,
        ensures
            final(self).wf(),
            final(self).same_setup(old(self)),
            r.relay_out@.len() == 0,
            match relay_owner(old(self).config.relay.entries@, giaddr, 0) {
                Some(vlan) => {
                    &&& final(self).tables() == after_reply(
                        old(self).tables(),
                        vlan,
                        payload@,
                        now,
                    )
                    &&& if is_server_reply(payload@) {
                        floods(
                            r.packet_out@,
                            reply_targets(
                                final(self).tables(),
                                old(self).view,
                                vlan,
                                payload@,
                            ),
                            crate::dhcp::padded(
                                crate::dhcp::reply_frame(
                                    old(self).system_mac@,
                                    giaddr,
                                    crate::dhcp::payload_receiver(payload@),
                                    payload@,
                                ),
                            ),
                        )
                    } else {
                        r.packet_out@.len() == 0
                    }
                    &&& r.save == (is_server_reply(payload@) && binds(payload@))
                },
                None => final(self).tables() == old(self).tables() && r.packet_out@.len() == 0
                    && !r.save,
            },
    {
        let vlan: u16 = match self.relay_vlan(giaddr) {
            Some(vlan) => vlan,
            None => return no_effects(),
        };
        let reply = match parse_bootp(payload) {
            Some(reply) => reply,
            None => {
                self.note_relay_drop(vlan);
                return no_effects();
            },
        };
        if !reply.is_reply {
            self.note_relay_drop(vlan);
            return no_effects();
        }
        // Relayed leases are ordinary snooping bindings: DAI protects a
        // relayed client exactly as it protects a locally served one.
        let save = self.learn(
            reply.chaddr,
            reply.yiaddr,
            reply.message_type,
            reply.lease_secs,
            vlan,
            now,
            Ghost(payload@),
        );
        // Toward the client: unicast when it already has an address and
        // did not ask for a broadcast, else flood the VLAN.
        let frame = build_client_reply(self.system_mac, giaddr, &reply, payload);
        let key = (mac_text(reply.chaddr.as_slice()), vlan);
        assert(key@ == client_of(payload@, vlan));
        let alone = if reply.broadcast_flag {
            None
        } else {
            match self.dynamics.get(&key) {
                Some(b) => if b.interface.as_str().is_empty() {
                    None
                } else {
                    Some(b.interface.clone())
                },
                None => None,
            }
        };
        let ghost learnt = self.tables();
        let targets = match alone {
            Some(port) => {
                let mut one: TextSet = OrdMap::new();
                one.insert(port, ());
                assert(one@.dom() =~= Set::empty().insert(port@));
                one
            },
            None => self.view.carrying(vlan),
        };
        assert(targets@.dom() == reply_targets(learnt, self.view, vlan, payload@));
        self.note_to_client(vlan);
        assert(self.tables().dynamics == learnt.dynamics);
        let packet_out = flood(&targets, frame.as_slice());
        Effects { relay_out: Vec::new(), packet_out, save }
    }

    // ------------------------------------------------------------- expiry

    /// Drop the bindings whose lease has run out; true where any had and
    /// the table is to be persisted.
    pub fn expire_leases(&mut self, now: u64) -> (changed: bool)
        requires
            old(self).wf(),
        ensures
            final(self).wf(),
            final(self).same_setup(old(self)),
            final(self).dynamics@ == crate::ordmap::kept(old(self).dynamics@, runs_on(now)),
            final(self).tables() == (Tables {
                dynamics: leases(final(self).dynamics),
                ..old(self).tables()
            }),
            changed == (final(self).dynamics.entries@.len() != old(self).dynamics.entries@.len()),
            !changed ==> final(self).dynamics.entries@ == old(self).dynamics.entries@,
    {
        let before: usize = self.dynamics.entries.len();
        let keep = |k: &(String, u16), b: &DynamicBinding| -> (r: bool)
            ensures
                r == runs_on(now)(k@, *b),
            { b.expires_at > now };
        self.dynamics.retain(keep, Ghost(runs_on(now)));
        self.dynamics.entries.len() != before
    }

    /// `clear dhcp snooping binding [<mac>]` — dynamics only. The table is
    /// to be persisted where the count that comes back is not 0.
    pub fn clear_bindings(&mut self, mac: Option<&str>) -> (cleared: u32)
        requires
            old(self).wf(),
        ensures
            final(self).wf(),
            final(self).same_setup(old(self)),
            final(self).tables() == (Tables {
                dynamics: leases(final(self).dynamics),
                ..old(self).tables()
            }),
            match mac {
                Some(m) => final(self).dynamics@ == crate::ordmap::kept(old(self).dynamics@, is_other(m@)),
                None => final(self).dynamics@ == Map::<
                    (Seq<char>, u16),
                    DynamicBinding,
                >::empty(),
            },
            cleared == (old(self).dynamics.entries@.len() - final(self).dynamics.entries@.len()) as u32,
    {
        let before: usize = self.dynamics.entries.len();
        match mac {
            Some(mac) => {
                let keep = |k: &(String, u16), b: &DynamicBinding| -> (r: bool)
                    ensures
                        r == is_other(mac@)(k@, *b),
                    { !same_text(k.0.as_str(), mac) };
                self.dynamics.retain(keep, Ghost(is_other(mac@)));
            },
            None => self.dynamics.clear(),
        }
        (before - self.dynamics.entries.len()) as u32
    }
}

/// A lease that has not run out.
pub open spec fn runs_on(now: u64) -> spec_fn((Seq<char>, u16), DynamicBinding) -> bool {
    |k: (Seq<char>, u16), b: DynamicBinding| b.expires_at > now
}

/// A binding of another client.
pub open spec fn is_other(mac: Seq<char>) -> spec_fn((Seq<char>, u16), DynamicBinding) -> bool {
    |k: (Seq<char>, u16), b: DynamicBinding| k.0 != mac
}

// ------------------------------------------------------------ persistence

/// The key under which a binding is persisted.
pub open spec fn stored_key(k: (Seq<char>, u16)) -> Seq<char> {
    k.0 + "@"@ + crate::text::decimal_text(k.1 as nat)
}

/// The last index of a character.
pub open spec fn last_at(s: Seq<char>, c: char) -> Option<int>
    decreases s.len(),
{
    if s.len() == 0 {
        None
    } else if s.last() == c {
        Some(s.len() - 1)
    } else {
        last_at(s.drop_last(), c)
    }
}

/// The client that a persisted key names.
pub open spec fn stored_client(key: Seq<char>) -> Option<(Seq<char>, u16)> {
    match last_at(key, '@') {
        Some(i) => match crate::text::unsigned_upto(key.skip(i + 1), 10, 0xffff) {
            Some(vlan) => Some((key.take(i), vlan as u16)),
            None => None,
        },
        None => None,
    }
}

/// The bindings out of the first `n` persisted ones: those whose lease has
/// not run out and whose key names a client.
pub open spec fn restored(
    stored: Seq<(String, DynamicBinding)>,
    now: u64,
    n: int,
) -> Map<(Seq<char>, u16), Lease>
    decreases n,
{
    if n <= 0 {
        Map::empty()
    } else {
        let front = restored(stored, now, n - 1);
        match stored_client(stored[n - 1].0@) {
            Some(k) => if stored[n - 1].1.expires_at > now {
                front.insert(k, stored[n - 1].1.deep_view())
            } else {
                front
            },
            None => front,
        }
    }
}

fn read_key(key: &str) -> (r: Option<(String, u16)>)
    ensures
        match r {
            Some(k) => stored_client(key@) == Some(k@),
            None => stored_client(key@) is None,
        },
{
    let chars = crate::text::chars_of(key);
    let mut i: usize = chars.len();
    assert(chars@.take(i as int) =~= chars@);
    while i > 0
        invariant
            i <= chars@.len(),
            chars@ == key@,
            last_at(chars@, '@') == last_at(chars@.take(i as int), '@'),
        decreases i,
    {
        let ghost front = chars@.take(i as int);
        assert(front.drop_last() =~= chars@.take(i - 1));
        assert(front.last() == chars@[i - 1]);
        if chars[i - 1] == '@' {
            let mac = crate::text::text_of(chars.as_slice(), 0, i - 1);
            let tail = crate::text::text_of(chars.as_slice(), i, chars.len());
            assert(mac@ =~= key@.take(i - 1));
            assert(tail@ =~= key@.skip(i as int));
            return match parse_decimal(tail.as_str(), 0xffff) {
                Some(vlan) => {
                    let k = (mac, vlan as u16);
                    assert(k@ == (mac@, vlan as u16));
                    Some(k)
                },
                None => None,
            };
        }
        i = i - 1;
    }
    None
}

/// The binding table out of the persisted bindings, read at `now`: a
/// binding whose lease has run out stays behind.
pub fn restore(stored: Vec<(String, DynamicBinding)>, now: u64) -> (r: OrdMap<
    (String, u16),
    DynamicBinding,
>)
    ensures
        r.wf(),
        leases(r) == restored(stored@, now, stored@.len() as int),
{
    let mut r: OrdMap<(String, u16), DynamicBinding> = OrdMap::new();
    let mut i: usize = 0;
    assert(leases(r) =~= Map::<(Seq<char>, u16), Lease>::empty());
    while i < stored.len()
        invariant
            i <= stored@.len(),
            r.wf(),
            leases(r) == restored(stored@, now, i as int),
        decreases stored@.len() - i,
    {
        let ghost before = leases(r);
        let b = &stored[i].1;
        if b.expires_at > now {
            match read_key(stored[i].0.as_str()) {
                Some(k) => {
                    let ghost kv = k@;
                    let binding = DynamicBinding {
                        ip: b.ip,
                        interface: b.interface.clone(),
                        expires_at: b.expires_at,
                    };
                    let ghost value = binding.deep_view();
                    r.insert(k, binding);
                    assert(leases(r) =~= before.insert(kv, value));
                },
                None => {},
            }
        }
        i = i + 1;
    }
    r
}

/// What is persisted of a binding table, binding by binding.
pub open spec fn are_stored(
    stored: Seq<(String, DynamicBinding)>,
    entries: Seq<((String, u16), DynamicBinding)>,
) -> bool {
    stored.len() == entries.len() && forall|i: int|
        0 <= i < stored.len() ==> (#[trigger] stored[i]).0@ == stored_key(entries[i].0@)
            && stored[i].1.deep_view() == entries[i].1.deep_view()
}

impl Engine {
    /// The bindings to persist, under the keys they are stored by.
    pub fn stored_bindings(&self) -> (r: Vec<(String, DynamicBinding)>)
        ensures
            are_stored(r@, self.dynamics.entries@),
    {
        let mut r: Vec<(String, DynamicBinding)> = Vec::new();
        let mut i: usize = 0;
        while i < self.dynamics.entries.len()
            invariant
                i <= self.dynamics.entries@.len(),
                r@.len() == i,
                forall|j: int|
                    0 <= j < i ==> (#[trigger] r@[j]).0@ == stored_key(
                        self.dynamics.entries@[j].0@,
                    ) && r@[j].1.deep_view() == self.dynamics.entries@[j].1.deep_view(),
            decreases self.dynamics.entries@.len() - i,
        {
            let e = &self.dynamics.entries[i];
            let vlan = decimal(e.0.1 as u64);
            let key = cat3(e.0.0.as_str(), "@", vlan.as_str());
            r.push(
                (
                    key,
                    DynamicBinding {
                        ip: e.1.ip,
                        interface: e.1.interface.clone(),
                        expires_at: e.1.expires_at,
                    },
                ),
            );
            i = i + 1;
        }
        r
    }
}

/// The last '@' of a persisted key is the one that was put in.
proof fn lemma_last_at(front: Seq<char>, tail: Seq<char>)
    requires
        forall|i: int| 0 <= i < tail.len() ==> #[trigger] tail[i] != '@',
    ensures
        last_at(front + seq!['@'] + tail, '@') == Some(front.len() as int),
    decreases tail.len(),
{
    let s = front + seq!['@'] + tail;
    if tail.len() == 0 {
        assert(s.last() == '@');
    } else {
        assert(s.last() == tail.last());
        assert(s.drop_last() =~= front + seq!['@'] + tail.drop_last());
        assert forall|i: int| 0 <= i < tail.drop_last().len() implies #[trigger] tail.drop_last()[i]
            != '@' by {
            assert(tail.drop_last()[i] == tail[i]);
        }
        lemma_last_at(front, tail.drop_last());
    }
}

/// A persisted key names the client it was made of.
pub proof fn lemma_stored_key_reads_back(k: (Seq<char>, u16))
    ensures
        stored_client(stored_key(k)) == Some(k),
{
    let digits = crate::text::decimal_text(k.1 as nat);
    let s = stored_key(k);
    reveal_strlit("@");
    assert("@"@ =~= seq!['@']);
    crate::text::lemma_decimal_value(k.1 as nat);
    assert forall|i: int| 0 <= i < digits.len() implies #[trigger] digits[i] != '@' by {}
    lemma_last_at(k.0, digits);
    assert(s =~= k.0 + seq!['@'] + digits);
    assert(s.skip(k.0.len() as int + 1) =~= digits);
    assert(s.take(k.0.len() as int) =~= k.0);
}

/// Bindings survive a restart: what is read back of what was persisted is
/// the binding table, without the leases that have run out since.
pub proof fn lemma_bindings_survive(
    stored: Seq<(String, DynamicBinding)>,
    m: OrdMap<(String, u16), DynamicBinding>,
    now: u64,
)
    requires
        m.wf(),
        are_stored(stored, m.entries@),
    ensures
        restored(stored, now, stored.len() as int) == Map::new(
            |k: (Seq<char>, u16)| m@.dom().contains(k) && m@[k].expires_at > now,
            |k: (Seq<char>, u16)| m@[k].deep_view(),
        ),
{
    lemma_restored_upto(stored, m, now, stored.len() as int);
    let r = restored(stored, now, stored.len() as int);
    let want = Map::new(
        |k: (Seq<char>, u16)| m@.dom().contains(k) && m@[k].expires_at > now,
        |k: (Seq<char>, u16)| m@[k].deep_view(),
    );
    assert forall|k: (Seq<char>, u16)| #[trigger] r.dom().contains(k) <==> want.dom().contains(k)
        by {
        if want.dom().contains(k) {
            let i = choose|i: int| 0 <= i < m.entries@.len() && (#[trigger] m.entries@[i]).0@ == k;
            crate::ordmap::lemma_map_of_entry(m.entries@, i);
        }
    }
    assert(r =~= want);
}

proof fn lemma_restored_upto(
    stored: Seq<(String, DynamicBinding)>,
    m: OrdMap<(String, u16), DynamicBinding>,
    now: u64,
    n: int,
)
    requires
        m.wf(),
        are_stored(stored, m.entries@),
        0 <= n <= stored.len(),
    ensures
        forall|k: (Seq<char>, u16)| #[trigger]
            restored(stored, now, n).dom().contains(k) ==> m@.dom().contains(k)
                && m@[k].expires_at > now && restored(stored, now, n)[k] == m@[k].deep_view(),
        forall|i: int|
            0 <= i < n && (#[trigger] m.entries@[i]).1.expires_at > now ==> restored(
                stored,
                now,
                n,
            ).dom().contains(m.entries@[i].0@),
    decreases n,
{
    if n > 0 {
        lemma_restored_upto(stored, m, now, n - 1);
        let e = m.entries@[n - 1];
        assert(stored[n - 1].0@ == stored_key(e.0@));
        assert(stored[n - 1].1.deep_view() == e.1.deep_view());
        lemma_stored_key_reads_back(e.0@);
        crate::ordmap::lemma_map_of_entry(m.entries@, n - 1);
        let front = restored(stored, now, n - 1);
        let r = restored(stored, now, n);
        let lives = e.1.expires_at > now;
        assert(stored[n - 1].1.expires_at == e.1.expires_at);
        assert(r == if lives { front.insert(e.0@, e.1.deep_view()) } else { front });
        assert forall|k: (Seq<char>, u16)| #[trigger] r.dom().contains(k) implies m@.dom().contains(
            k,
        ) && m@[k].expires_at > now && r[k] == m@[k].deep_view() by {
            if !(lives && k == e.0@) {
                assert(front.dom().contains(k));
            }
        }
    }
}

// --------------------------------------------------------------- snapshot

#[derive(Debug, Clone)]
pub struct BindingSnapshot {
    pub mac: String,
    pub vlan: u16,
    pub ip: Ipv4,
    pub interface: String,
    /// Remaining lease; None = static.
    pub lease_secs: Option<u64>,
}

pub struct Snapshot {
    pub dhcp_vlans: Vec<u16>,
    pub arp_vlans: Vec<u16>,
    pub validate: Vec<Validate>,
    pub dhcp_trusted: Vec<String>,
    pub arp_trusted: Vec<String>,
    pub bindings: Vec<BindingSnapshot>,
    pub dhcp_stats: OrdMap<u16, DhcpVlanStats>,
    pub untrusted_server_drops: u64,
    pub arp_stats: OrdMap<u16, DaiVlanStats>,
    /// Per-VLAN relay state: servers, giaddr and counters.
    pub relay: OrdMap<u16, (RelayVlan, RelayVlanStats)>,
}

/// A row is what a dynamic binding says.
pub open spec fn is_dynamic_row(
    row: BindingSnapshot,
    e: ((String, u16), DynamicBinding),
    now: u64,
) -> bool {
    &&& row.mac@ == e.0.0@
    &&& row.vlan == e.0.1
    &&& row.ip == e.1.ip
    &&& row.interface@ == e.1.interface@
    &&& row.lease_secs == Some(
        if e.1.expires_at > now {
            (e.1.expires_at - now) as u64
        } else {
            0
        },
    )
}

/// A row is what a static binding says.
pub open spec fn is_static_row(row: BindingSnapshot, e: ((String, u16), StaticBinding)) -> bool {
    &&& row.mac@ == e.0.0@
    &&& row.vlan == e.0.1
    &&& row.ip == e.1.ip
    &&& row.interface@ == e.1.interface@
    &&& row.lease_secs is None
}

/// The rows of the dynamic bindings, then those of the static ones.
pub open spec fn are_rows(
    rows: Seq<BindingSnapshot>,
    dynamics: Seq<((String, u16), DynamicBinding)>,
    statics: Seq<((String, u16), StaticBinding)>,
    now: u64,
) -> bool {
    &&& rows.len() == dynamics.len() + statics.len()
    &&& forall|i: int|
        0 <= i < dynamics.len() ==> is_dynamic_row(#[trigger] rows[i], dynamics[i], now)
    &&& forall|i: int|
        dynamics.len() <= i < rows.len() ==> is_static_row(
            #[trigger] rows[i],
            statics[i - dynamics.len()],
        )
}

/// Does a row sort before another, by VLAN and then by address?
pub open spec fn row_before(a: BindingSnapshot, b: BindingSnapshot) -> bool {
    a.vlan < b.vlan || (a.vlan == b.vlan && a.ip.bits < b.ip.bits)
}

/// A row put behind those that do not sort after it.
pub open spec fn insert_row(s: Seq<BindingSnapshot>, row: BindingSnapshot) -> Seq<BindingSnapshot>
    decreases s.len(),
{
    if s.len() == 0 || !row_before(row, s.last()) {
        s.push(row)
    } else {
        insert_row(s.drop_last(), row).push(s.last())
    }
}

/// Rows sorted by VLAN and address; equal rows keep their order.
pub open spec fn sorted_rows(s: Seq<BindingSnapshot>) -> Seq<BindingSnapshot>
    decreases s.len(),
{
    if s.len() == 0 {
        s
    } else {
        insert_row(sorted_rows(s.drop_last()), s.last())
    }
}

fn add_row(rows: &mut Vec<BindingSnapshot>, row: BindingSnapshot)
    ensures
        final(rows)@ == insert_row(old(rows)@, row),
    decreases old(rows)@.len(),
{
    let ghost before = rows@;
    let len: usize = rows.len();
    let fits = if len == 0 {
        true
    } else {
        let last = &rows[len - 1];
        !(row.vlan < last.vlan || (row.vlan == last.vlan && row.ip.bits < last.ip.bits))
    };
    if fits {
        rows.push(row);
    } else {
        match rows.pop() {
            Some(last) => {
                assert(rows@ =~= before.drop_last());
                add_row(rows, row);
                rows.push(last);
            },
            None => {},
        }
    }
}

/// The keys of a table, in order.
pub open spec fn plain_keys<K: Key, T>(s: Seq<(K, T)>) -> Seq<K> {
    Seq::new(s.len(), |i: int| s[i].0)
}

fn vlan_list(set: &VlanSet) -> (r: Vec<u16>)
    ensures
        r@ == plain_keys(set.entries@),
{
    let mut r: Vec<u16> = Vec::new();
    let mut i: usize = 0;
    while i < set.entries.len()
        invariant
            i <= set.entries@.len(),
            r@.len() == i,
            forall|j: int| 0 <= j < i ==> #[trigger] r@[j] == set.entries@[j].0,
        decreases set.entries@.len() - i,
    {
        r.push(set.entries[i].0);
        i = i + 1;
    }
    assert(r@ =~= plain_keys(set.entries@));
    r
}

fn check_list(set: &OrdMap<Validate, ()>) -> (r: Vec<Validate>)
    ensures
        r@ == plain_keys(set.entries@),
{
    let mut r: Vec<Validate> = Vec::new();
    let mut i: usize = 0;
    while i < set.entries.len()
        invariant
            i <= set.entries@.len(),
            r@.len() == i,
            forall|j: int| 0 <= j < i ==> #[trigger] r@[j] == set.entries@[j].0,
        decreases set.entries@.len() - i,
    {
        r.push(set.entries[i].0);
        i = i + 1;
    }
    assert(r@ =~= plain_keys(set.entries@));
    r
}

fn copy_counters<T: Copy>(m: &OrdMap<u16, T>) -> (r: OrdMap<u16, T>)
    ensures
        r.entries@ == m.entries@,
{
    let mut entries: Vec<(u16, T)> = Vec::new();
    let mut i: usize = 0;
    while i < m.entries.len()
        invariant
            i <= m.entries@.len(),
            entries@.len() == i,
            forall|j: int| 0 <= j < i ==> #[trigger] entries@[j] == m.entries@[j],
        decreases m.entries@.len() - i,
    {
        entries.push((m.entries[i].0, m.entries[i].1));
        i = i + 1;
    }
    assert(entries@ =~= m.entries@);
    OrdMap { entries }
}

/// The relay rows: every relay-enabled VLAN with its servers, its giaddr
/// and its counters.
pub open spec fn are_relay_rows(
    rows: Seq<(u16, (RelayVlan, RelayVlanStats))>,
    relays: Seq<(u16, RelayVlan)>,
    stats: Map<u16, RelayVlanStats>,
) -> bool {
    rows.len() == relays.len() && forall|i: int|
        0 <= i < rows.len() ==> (#[trigger] rows[i]).0 == relays[i].0 && rows[i].1.0.giaddr
            == relays[i].1.giaddr && rows[i].1.0.servers@ == relays[i].1.servers@ && rows[i].1.1
            == relay_at(stats, relays[i].0)
}

impl Engine {
    fn binding_rows(&self, now: u64) -> (r: Vec<BindingSnapshot>)
        ensures
            exists|rows: Seq<BindingSnapshot>| #[trigger]
                are_rows(
                    rows,
                    self.dynamics.entries@,
                    self.config.statics.entries@,
                    now,
                ) && r@ == sorted_rows(rows),
    {
        let ghost mut rows: Seq<BindingSnapshot> = Seq::empty();
        let ghost dynamics = self.dynamics.entries@;
        let ghost statics = self.config.statics.entries@;
        let mut r: Vec<BindingSnapshot> = Vec::new();
        let mut i: usize = 0;
        while i < self.dynamics.entries.len()
            invariant
                dynamics == self.dynamics.entries@,
                i <= dynamics.len(),
                rows.len() == i,
                forall|j: int| 0 <= j < i ==> is_dynamic_row(#[trigger] rows[j], dynamics[j], now),
                r@ == sorted_rows(rows),
            decreases dynamics.len() - i,
        {
            let e = &self.dynamics.entries[i];
            let left: u64 = if e.1.expires_at > now {
                e.1.expires_at - now
            } else {
                0
            };
            let row = BindingSnapshot {
                mac: e.0.0.clone(),
                vlan: e.0.1,
                ip: e.1.ip,
                interface: e.1.interface.clone(),
                lease_secs: Some(left),
            };
            proof {
                assert(rows.push(row).drop_last() =~= rows);
                rows = rows.push(row);
            }
            add_row(&mut r, row);
            i = i + 1;
        }
        let mut k: usize = 0;
        while k < self.config.statics.entries.len()
            invariant
                dynamics == self.dynamics.entries@,
                statics == self.config.statics.entries@,
                k <= statics.len(),
                rows.len() == dynamics.len() + k,
                forall|j: int|
                    0 <= j < dynamics.len() ==> is_dynamic_row(
                        #[trigger] rows[j],
                        dynamics[j],
                        now,
                    ),
                forall|j: int|
                    dynamics.len() <= j < rows.len() ==> is_static_row(
                        #[trigger] rows[j],
                        statics[j - dynamics.len()],
                    ),
                r@ == sorted_rows(rows),
            decreases statics.len() - k,
        {
            let e = &self.config.statics.entries[k];
            let row = BindingSnapshot {
                mac: e.0.0.clone(),
                vlan: e.0.1,
                ip: e.1.ip,
                interface: e.1.interface.clone(),
                lease_secs: None,
            };
            proof {
                assert(rows.push(row).drop_last() =~= rows);
                rows = rows.push(row);
            }
            add_row(&mut r, row);
            k = k + 1;
        }
        assert(are_rows(rows, dynamics, statics, now));
        r
    }

    fn relay_rows(&self) -> (r: OrdMap<u16, (RelayVlan, RelayVlanStats)>)
        requires
            self.wf(),
        ensures
            r.wf(),
            are_relay_rows(r.entries@, self.config.relay.entries@, self.relay_stats@),
    {
        let mut entries: Vec<(u16, (RelayVlan, RelayVlanStats))> = Vec::new();
        let mut i: usize = 0;
        while i < self.config.relay.entries.len()
            invariant
                self.wf(),
                i <= self.config.relay.entries@.len(),
                entries@.len() == i,
                forall|j: int|
                    0 <= j < i ==> (#[trigger] entries@[j]).0 == self.config.relay.entries@[j].0
                        && entries@[j].1.0.giaddr == self.config.relay.entries@[j].1.giaddr
                        && entries@[j].1.0.servers@ == self.config.relay.entries@[j].1.servers@
                        && entries@[j].1.1 == relay_at(
                        self.relay_stats@,
                        self.config.relay.entries@[j].0,
                    ),
            decreases self.config.relay.entries@.len() - i,
        {
            let e = &self.config.relay.entries[i];
            let stats = self.relay_counts(e.0);
            entries.push((e.0, (copy_relay(&e.1), stats)));
            i = i + 1;
        }
        let r = OrdMap { entries };
        proof {
            let relays = self.config.relay.entries@;
            assert forall|i: int, j: int| 0 <= i < j < r.entries@.len() implies u16::before(
                (#[trigger] r.entries@[i]).0@,
                (#[trigger] r.entries@[j]).0@,
            ) by {
                assert(u16::before(relays[i].0@, relays[j].0@));
            }
        }
        r
    }

    /// The state, as it stands at `now` in Unix seconds.
    pub fn snapshot(&self, now: u64) -> (r: Snapshot)
        requires
            self.wf(),
        ensures
            r.dhcp_vlans@ == plain_keys(self.config.dhcp_vlans.entries@),
            r.arp_vlans@ == plain_keys(self.config.arp_vlans.entries@),
            r.validate@ == (if self.config.validate.entries@.len() == 0 {
                seq![Validate::SrcMac]
            } else {
                plain_keys(self.config.validate.entries@)
            }),
            crate::ordmap::lists(r.dhcp_trusted.deep_view(), self.config.dhcp_trusted@.dom()),
            crate::ordmap::lists(r.arp_trusted.deep_view(), self.config.arp_trusted@.dom()),
            exists|rows: Seq<BindingSnapshot>| #[trigger]
                are_rows(
                    rows,
                    self.dynamics.entries@,
                    self.config.statics.entries@,
                    now,
                ) && r.bindings@ == sorted_rows(rows),
            r.dhcp_stats.entries@ == self.dhcp_stats.entries@,
            r.untrusted_server_drops == self.untrusted_server_drops,
            r.arp_stats.entries@ == self.arp_stats.entries@,
            r.relay.wf(),
            are_relay_rows(r.relay.entries@, self.config.relay.entries@, self.relay_stats@),
    {
        let validate = if self.config.validate.entries.len() == 0 {
            let mut one: Vec<Validate> = Vec::new();
            one.push(Validate::SrcMac);
            assert(one@ =~= seq![Validate::SrcMac]);
            one
        } else {
            check_list(&self.config.validate)
        };
        Snapshot {
            dhcp_vlans: vlan_list(&self.config.dhcp_vlans),
            arp_vlans: vlan_list(&self.config.arp_vlans),
            validate,
            dhcp_trusted: self.config.dhcp_trusted.names(),
            arp_trusted: self.config.arp_trusted.names(),
            bindings: self.binding_rows(now),
            dhcp_stats: copy_counters(&self.dhcp_stats),
            untrusted_server_drops: self.untrusted_server_drops,
            arp_stats: copy_counters(&self.arp_stats),
            relay: self.relay_rows(),
        }
    }
}

// -------------------------------------------------------------------- laws

/// A rogue server never binds: a server message from an untrusted port
/// leaves the binding table and the port memory as they are, and is
/// counted as dropped.
pub proof fn lemma_rogue_never_binds(
    t: Tables,
    config: Config,
    view: L2View,
    port: Seq<char>,
    vlan: u16,
    frame: Seq<u8>,
    now: u64,
)
    requires
        from_server(config, vlan, frame),
        !dhcp_trusts(config, view, port),
    ensures
        ({
            let r = after_dhcp(t, config, view, port, vlan, frame, now);
            &&& r.dynamics == t.dynamics
            &&& r.pending == t.pending
            &&& r.untrusted_server_drops == t.untrusted_server_drops + 1
        }),
        dhcp_targets(config, view, port, vlan, frame) == Set::<Seq<char>>::empty(),
        relay_for(config, vlan, frame) is None,
{
}

/// Nothing unvalidated is ever relayed or re-injected: where the client
/// hardware address is not the L2 source, nothing goes out and nothing is
/// learned.
pub proof fn lemma_spoofed_goes_nowhere(
    t: Tables,
    config: Config,
    view: L2View,
    port: Seq<char>,
    vlan: u16,
    frame: Seq<u8>,
    now: u64,
)
    requires
        from_client(config, vlan, frame),
        !honest(frame),
    ensures
        relay_for(config, vlan, frame) is None,
        dhcp_targets(config, view, port, vlan, frame) == Set::<Seq<char>>::empty(),
        after_dhcp(t, config, view, port, vlan, frame, now).dynamics == t.dynamics,
        after_dhcp(t, config, view, port, vlan, frame, now).pending == t.pending,
{
}

/// A frame is never sent back out the port that it came in on.
pub proof fn lemma_never_back(
    t: Tables,
    config: Config,
    view: L2View,
    port: Seq<char>,
    vlan: u16,
    frame: Seq<u8>,
)
    ensures
        !dhcp_targets(config, view, port, vlan, frame).contains(port),
        !arp_targets(t, config, view, port, vlan, frame).contains(port),
{
}

/// A lease protects its client, relayed or not: after an ACK the client
/// holds exactly the leased address, so its ARP passes the binding check
/// and no other sender address does.
pub proof fn lemma_lease_protects(
    t: Tables,
    config: Config,
    d: Seq<u8>,
    vlan: u16,
    now: u64,
    ip: Ipv4,
)
    requires
        binds(d),
    ensures
        holds_address(learned(t, d, vlan, now), config, client_of(d, vlan), ip) <==> ip.bits
            == crate::bytes::word32(d, 16),
        after_reply(t, vlan, d, now).dynamics == (if is_server_reply(d) {
            learned(t, d, vlan, now).dynamics
        } else {
            t.dynamics
        }),
{
}

/// A lease given up protects no longer: after a RELEASE or DECLINE only a
/// static binding lets the client's ARP pass.
pub proof fn lemma_release_unbinds(
    t: Tables,
    config: Config,
    d: Seq<u8>,
    vlan: u16,
    port: Seq<char>,
    ip: Ipv4,
)
    requires
        gives_up(d),
        !config.statics@.dom().contains(client_of(d, vlan)),
    ensures
        !holds_address(heard(t, d, vlan, port), config, client_of(d, vlan), ip),
{
}

/// Under ARP inspection a frame passes only where its sender holds the
/// sender address, and one with the default check only where the sender
/// hardware address is the L2 source.
pub proof fn lemma_only_bound_senders_pass(t: Tables, config: Config, vlan: u16, frame: Seq<u8>)
    requires
        verdict(t, config, vlan, frame) is Forward,
    ensures
        holds_address(
            t,
            config,
            (crate::mac::mac_chars(frame.subrange(22, 28)), vlan),
            Ipv4 { bits: crate::bytes::word32(frame, 28) },
        ),
        config.validate.entries@.len() == 0 ==> frame.subrange(22, 28) == frame.subrange(6, 12),
{
    if config.validate.entries@.len() == 0 {
        crate::mac::lemma_mac_chars_injective(frame.subrange(22, 28), frame.subrange(6, 12));
    }
}

} // verus!
