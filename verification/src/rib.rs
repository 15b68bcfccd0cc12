//! The RIB manager: kernel netlink -> orch -> syncd.
//!
//! The kernel is the single upstream truth — statics, connected routes and
//! FRR all install there, and this engine mirrors the result into the ASIC
//! via syncd's FIB RPCs. Kernel state arrives as *full snapshots*
//! (`ip -j route show` / `ip -j -s neigh show`). Full-dump + reconcile is
//! also exactly the resync protocol a syncd or orch restart needs, so there
//! is one convergence path, not two.
//!
//! Translation rules:
//! - only routes out interfaces that map to ASIC L3 interfaces
//!   (front-panel hostifs, SVI bridges) are programmed; Management-only
//!   routes stay kernel-only;
//! - connected/local routes (no `via`) are already handled by syncd's
//!   RIF path — the RIB skips them;
//! - ECMP kernel routes translate to next-hop sets (syncd builds the
//!   groups);
//! - **resolve-via-punt**: a route whose next hops have no resolved
//!   (REACHABLE/PERMANENT) neighbor is programmed to punt to the CPU,
//!   so the kernel resolves ARP/ND; the neighbor event then reprograms
//!   it onto the resolved hops.

use vstd::prelude::*;

use crate::ip::{parse_ip, IpAddr};
use crate::json::{parse_json, Json};
use crate::ordmap::{OrdMap, TextSet};
use crate::text::{cat2, copy_option, cut, has_char, parse_decimal, same_text, starts_with};

verus! {

// ---------------------------------------------------------------- kernel

/// One kernel route, as parsed from `ip -j route show`.
#[derive(Debug, Clone, PartialEq, Eq)]
pub struct KernelRoute {
    /// Canonical CIDR prefix ("default" already expanded).
    pub prefix: String,
    /// iproute2 protocol tag: "kernel", "boot", "static", "ospf", ...
    pub protocol: String,
    pub metric: u32,
    pub blackhole: bool,
    pub hops: Vec<KernelHop>,
}

/// One kernel next hop; `via: None` = directly connected (device route).
#[derive(Debug, Clone, PartialEq, Eq)]
pub struct KernelHop {
    pub via: Option<String>,
    pub dev: Option<String>,
}

/// One kernel neighbor entry, as parsed from `ip -j -s neigh show`.
#[derive(Debug, Clone, PartialEq, Eq)]
pub struct KernelNeighbor {
    pub ip: String,
    pub dev: String,
    /// Colon-separated lowercase; None while unresolved.
    pub mac: Option<String>,
    /// NUD PERMANENT (a configured static) or NOARP.
    pub permanent: bool,
    /// NUD REACHABLE.
    pub reachable: bool,
    /// STALE/DELAY/PROBE: usable by the kernel but not programmed.
    pub stale: bool,
    /// Seconds since last confirmation (`-s` output), when known.
    pub age_secs: Option<u64>,
}

/// The text under a key, where there is one.
pub open spec fn text_at(v: Json, key: Seq<char>) -> Option<Seq<char>> {
    match crate::json::member(v, key) {
        Some(Json::Text(s)) => Some(s@),
        _ => None,
    }
}

fn get_text(v: &Json, key: &str) -> (r: Option<String>)
    ensures
        crate::text::option_text(r) == text_at(*v, key@),
{
    match v.get(key) {
        Some(Json::Text(s)) => Some(s.clone()),
        _ => None,
    }
}

/// iproute2 prints "default" and drops full-length suffixes.
pub open spec fn canonical_text(dst: Seq<char>, v6: bool) -> Seq<char> {
    if dst == "default"@ {
        if v6 {
            "::/0"@
        } else {
            "0.0.0.0/0"@
        }
    } else if dst.contains('/') {
        dst
    } else if dst.contains(':') {
        dst + "/128"@
    } else {
        dst + "/32"@
    }
}

fn canonical_dst(dst: &str, v6: bool) -> (r: String)
    ensures
        r@ == canonical_text(dst@, v6),
{
    if same_text(dst, "default") {
        return if v6 {
            "::/0".to_owned()
        } else {
            "0.0.0.0/0".to_owned()
        };
    }
    if has_char(dst, '/') {
        return dst.to_owned();
    }
    if has_char(dst, ':') {
        cat2(dst, "/128")
    } else {
        cat2(dst, "/32")
    }
}

/// A hop is what its entry says.
pub open spec fn is_hop(h: KernelHop, v: Json) -> bool {
    crate::text::option_text(h.via) == text_at(v, "gateway"@) && crate::text::option_text(h.dev)
        == text_at(v, "dev"@)
}

/// Is a route entry a null route?
pub open spec fn is_blackhole(v: Json) -> bool {
    text_at(v, "type"@) == Some("blackhole"@)
}

/// The hops of a route entry: its next-hop list, or the one hop it names
/// itself; a null route without a list has none.
pub open spec fn are_hops(hops: Seq<KernelHop>, v: Json) -> bool {
    match crate::json::member(v, "nexthops"@) {
        Some(Json::List(list)) => hops.len() == list@.len() && forall|i: int|
            0 <= i < hops.len() ==> is_hop(#[trigger] hops[i], list@[i]),
        _ => if is_blackhole(v) {
            hops.len() == 0
        } else {
            hops.len() == 1 && is_hop(hops[0], v)
        },
    }
}

/// A route is what its entry says.
pub open spec fn is_route(r: KernelRoute, v: Json, v6: bool) -> bool {
    &&& text_at(v, "dst"@) matches Some(dst) && r.prefix@ == canonical_text(dst, v6)
    &&& r.protocol@ == crate::json::text_member(v, "protocol"@)
    &&& r.metric == crate::json::count_member(v, "metric"@) as u32
    &&& r.blackhole == is_blackhole(v)
    &&& are_hops(r.hops@, v)
}

/// Of the first `n` entries those that name a destination.
pub open spec fn with_dst(items: Seq<Json>, n: int) -> Seq<Json>
    decreases n,
{
    if n <= 0 {
        Seq::empty()
    } else if text_at(items[n - 1], "dst"@) is Some {
        with_dst(items, n - 1).push(items[n - 1])
    } else {
        with_dst(items, n - 1)
    }
}

pub open spec fn are_routes(rs: Seq<KernelRoute>, entries: Seq<Json>, v6: bool) -> bool {
    rs.len() == entries.len() && forall|i: int|
        0 <= i < rs.len() ==> is_route(#[trigger] rs[i], entries[i], v6)
}

fn hops_of(v: &Json, blackhole: bool) -> (hops: Vec<KernelHop>)
    requires
        blackhole == is_blackhole(*v),
    ensures
        are_hops(hops@, *v),
{
    let mut hops: Vec<KernelHop> = Vec::new();
    match v.get("nexthops") {
        Some(Json::List(list)) => {
            let mut i: usize = 0;
            while i < list.len()
                invariant
                    i <= list@.len(),
                    hops@.len() == i,
                    forall|j: int| 0 <= j < i ==> is_hop(#[trigger] hops@[j], list@[j]),
                decreases list@.len() - i,
            {
                hops.push(
                    KernelHop {
                        via: get_text(&list[i], "gateway"),
                        dev: get_text(&list[i], "dev"),
                    },
                );
                i = i + 1;
            }
        },
        _ => {
            if !blackhole {
                hops.push(KernelHop { via: get_text(v, "gateway"), dev: get_text(v, "dev") });
            }
        },
    }
    hops
}

/// The routes of a route document; none where it is no list.
pub fn routes_of(document: &Json, v6: bool) -> (routes: Vec<KernelRoute>)
    ensures
        are_routes(
            routes@,
            with_dst(crate::json::items_of(*document), crate::json::items_of(*document).len() as int),
            v6,
        ),
{
    let mut routes: Vec<KernelRoute> = Vec::new();
    match document {
        Json::List(items) => {
            let mut i: usize = 0;
            while i < items.len()
                invariant
                    i <= items@.len(),
                    are_routes(routes@, with_dst(items@, i as int), v6),
                decreases items@.len() - i,
            {
                let entry = &items[i];
                match get_text(entry, "dst") {
                    Some(dst) => {
                        let kind = get_text(entry, "type");
                        let blackhole = match &kind {
                            Some(k) => same_text(k.as_str(), "blackhole"),
                            None => false,
                        };
                        routes.push(
                            KernelRoute {
                                prefix: canonical_dst(dst.as_str(), v6),
                                protocol: entry.text("protocol"),
                                metric: entry.num("metric") as u32,
                                blackhole,
                                hops: hops_of(entry, blackhole),
                            },
                        );
                    },
                    None => {},
                }
                i = i + 1;
            }
        },
        _ => {},
    }
    routes
}

/// The entries of a dump; none where the text is no JSON list.
pub open spec fn dump_items(text: Seq<char>) -> Seq<Json> {
    match crate::json::json_document(text) {
        Some(v) => crate::json::items_of(v),
        None => Seq::empty(),
    }
}

/// Parse `ip -j [-6] route show` output. `v6` picks the default-route
/// expansion and host prefix length.
pub fn parse_routes(json: &str, v6: bool) -> (routes: Vec<KernelRoute>)
    ensures
        are_routes(
            routes@,
            with_dst(dump_items(json@), dump_items(json@).len() as int),
            v6,
        ),
{
    match parse_json(json) {
        Some(v) => routes_of(&v, v6),
        None => Vec::new(),
    }
}

/// The value is this text.
pub open spec fn is_text(v: Json, text: Seq<char>) -> bool {
    v matches Json::Text(s) && s@ == text
}

/// One of the values is this text.
pub open spec fn lists_text(items: Seq<Json>, text: Seq<char>) -> bool {
    exists|i: int| 0 <= i < items.len() && is_text(#[trigger] items[i], text)
}

/// One of the states of a neighbor entry.
pub open spec fn has_state(v: Json, state: Seq<char>) -> bool {
    match crate::json::member(v, "state"@) {
        Some(Json::List(states)) => lists_text(states@, state),
        _ => false,
    }
}

fn check_listed(items: &Vec<Json>, text: &str) -> (r: bool)
    ensures
        r == lists_text(items@, text@),
{
    let mut i: usize = 0;
    while i < items.len()
        invariant
            i <= items@.len(),
            forall|j: int| 0 <= j < i ==> !is_text(#[trigger] items@[j], text@),
        decreases items@.len() - i,
    {
        match &items[i] {
            Json::Text(s) => {
                if same_text(s.as_str(), text) {
                    assert(is_text(items@[i as int], text@));
                    return true;
                }
            },
            _ => {},
        }
        i = i + 1;
    }
    false
}

fn check_state(v: &Json, state: &str) -> (r: bool)
    ensures
        r == has_state(*v, state@),
{
    match v.get("state") {
        Some(Json::List(states)) => check_listed(states, state),
        _ => false,
    }
}

/// A neighbor is what its entry says.
pub open spec fn is_neighbor(n: KernelNeighbor, v: Json) -> bool {
    &&& text_at(v, "dst"@) == Some(n.ip@)
    &&& text_at(v, "dev"@) == Some(n.dev@)
    &&& crate::text::option_text(n.mac) == text_at(v, "lladdr"@)
    &&& n.permanent == (has_state(v, "PERMANENT"@) || has_state(v, "NOARP"@))
    &&& n.reachable == has_state(v, "REACHABLE"@)
    &&& n.stale == (has_state(v, "STALE"@) || has_state(v, "DELAY"@) || has_state(v, "PROBE"@))
    &&& n.age_secs == crate::json::number_member(v, "confirmed"@)
}

/// Of the first `n` entries those that name an address and a device.
pub open spec fn with_dst_dev(items: Seq<Json>, n: int) -> Seq<Json>
    decreases n,
{
    if n <= 0 {
        Seq::empty()
    } else if text_at(items[n - 1], "dst"@) is Some && text_at(items[n - 1], "dev"@) is Some {
        with_dst_dev(items, n - 1).push(items[n - 1])
    } else {
        with_dst_dev(items, n - 1)
    }
}

pub open spec fn are_neighbors(ns: Seq<KernelNeighbor>, entries: Seq<Json>) -> bool {
    ns.len() == entries.len() && forall|i: int|
        0 <= i < ns.len() ==> is_neighbor(#[trigger] ns[i], entries[i])
}

/// The neighbors of a neighbor document; none where it is no list.
pub fn neighbors_of(document: &Json) -> (neighbors: Vec<KernelNeighbor>)
    ensures
        are_neighbors(
            neighbors@,
            with_dst_dev(crate::json::items_of(*document), crate::json::items_of(*document).len() as int),
        ),
{
    let mut neighbors: Vec<KernelNeighbor> = Vec::new();
    match document {
        Json::List(items) => {
            let mut i: usize = 0;
            while i < items.len()
                invariant
                    i <= items@.len(),
                    are_neighbors(neighbors@, with_dst_dev(items@, i as int)),
                decreases items@.len() - i,
            {
                let entry = &items[i];
                match (get_text(entry, "dst"), get_text(entry, "dev")) {
                    (Some(ip), Some(dev)) => {
                        neighbors.push(
                            KernelNeighbor {
                                ip,
                                dev,
                                mac: get_text(entry, "lladdr"),
                                permanent: check_state(entry, "PERMANENT") || check_state(
                                    entry,
                                    "NOARP",
                                ),
                                reachable: check_state(entry, "REACHABLE"),
                                stale: check_state(entry, "STALE") || check_state(entry, "DELAY")
                                    || check_state(entry, "PROBE"),
                                age_secs: entry.number("confirmed"),
                            },
                        );
                    },
                    _ => {},
                }
                i = i + 1;
            }
        },
        _ => {},
    }
    neighbors
}

/// Parse `ip -j -s [-6] neigh show` output.
pub fn parse_neighbors(json: &str) -> (neighbors: Vec<KernelNeighbor>)
    ensures
        are_neighbors(
            neighbors@,
            with_dst_dev(dump_items(json@), dump_items(json@).len() as int),
        ),
{
    match parse_json(json) {
        Some(v) => neighbors_of(&v),
        None => Vec::new(),
    }
}

// --------------------------------------------------------------- program

/// What syncd's FIB should hold, derived from the kernel snapshot.
pub struct Program {
    /// Canonical prefix -> wanted program.
    pub routes: OrdMap<String, WantedRoute>,
    /// (interface, ip) -> mac.
    pub neighbors: OrdMap<(String, String), String>,
}

#[derive(Debug, Clone, PartialEq, Eq)]
pub struct WantedRoute {
    /// Punt while no next hop has a resolved neighbor.
    pub cpu: bool,
    /// Null route.
    pub drop: bool,
    /// Resolved (interface, ip) next hops.
    pub hops: Vec<(String, String)>,
}

/// A wanted route as mathematical values.
pub struct RouteProgram {
    pub cpu: bool,
    pub drop: bool,
    pub hops: Seq<(Seq<char>, Seq<char>)>,
}

impl DeepView for WantedRoute {
    type V = RouteProgram;

    open spec fn deep_view(&self) -> RouteProgram {
        RouteProgram { cpu: self.cpu, drop: self.drop, hops: self.hops.deep_view() }
    }
}

/// A FIB program as mathematical values.
#[verifier::ext_equal]
pub struct ProgramView {
    pub routes: Map<Seq<char>, RouteProgram>,
    pub neighbors: Map<(Seq<char>, Seq<char>), Seq<char>>,
}

/// The routes of a table, as mathematical values.
pub open spec fn routes_view(m: OrdMap<String, WantedRoute>) -> Map<Seq<char>, RouteProgram> {
    Map::new(|k: Seq<char>| m@.dom().contains(k), |k: Seq<char>| m@[k].deep_view())
}

/// The neighbors of a table, as mathematical values.
pub open spec fn neighbors_view(m: OrdMap<(String, String), String>) -> Map<
    (Seq<char>, Seq<char>),
    Seq<char>,
> {
    Map::new(
        |k: (Seq<char>, Seq<char>)| m@.dom().contains(k),
        |k: (Seq<char>, Seq<char>)| m@[k]@,
    )
}

impl View for Program {
    type V = ProgramView;

    open spec fn view(&self) -> ProgramView {
        ProgramView {
            routes: routes_view(self.routes),
            neighbors: neighbors_view(self.neighbors),
        }
    }
}

impl Program {
    pub open spec fn wf(&self) -> bool {
        self.routes.wf() && self.neighbors.wf()
    }

    pub fn new() -> (r: Program)
        ensures
            r.wf(),
            r@ == (ProgramView { routes: Map::empty(), neighbors: Map::empty() }),
    {
        let r = Program { routes: OrdMap::new(), neighbors: OrdMap::new() };
        assert(r@.routes =~= Map::<Seq<char>, RouteProgram>::empty());
        assert(r@.neighbors =~= Map::<(Seq<char>, Seq<char>), Seq<char>>::empty());
        r
    }

    fn put_route(&mut self, prefix: String, route: WantedRoute)
        requires
            old(self).wf(),
        ensures
            final(self).wf(),
            final(self)@.routes == old(self)@.routes.insert(prefix@, route.deep_view()),
            final(self)@.neighbors == old(self)@.neighbors,
    {
        let ghost before = self@.routes;
        self.routes.insert(prefix, route);
        assert(self@.routes =~= before.insert(prefix@, route.deep_view()));
    }

    fn put_neighbor(&mut self, interface: String, ip: String, mac: String)
        requires
            old(self).wf(),
        ensures
            final(self).wf(),
            final(self)@.neighbors == old(self)@.neighbors.insert((interface@, ip@), mac@),
            final(self)@.routes == old(self)@.routes,
    {
        let ghost before = self@.neighbors;
        let ghost k = (interface@, ip@);
        let key = (interface, ip);
        assert(key@ == k);
        self.neighbors.insert(key, mac);
        assert(self@.neighbors =~= before.insert(k, mac@));
    }

    /// Is a neighbor part of the program?
    fn has_neighbor(&self, interface: &str, ip: &str) -> (r: bool)
        requires
            self.wf(),
        ensures
            r == self@.neighbors.dom().contains((interface@, ip@)),
    {
        let key = (interface.to_owned(), ip.to_owned());
        assert(key@ == (interface@, ip@));
        self.neighbors.contains(&key)
    }

    /// Note that a push succeeded: the mirror tracks per-op success so one
    /// persistently failing entry never wedges the rest.
    pub fn record(&mut self, op: FibOp)
        requires
            old(self).wf(),
        ensures
            final(self).wf(),
            final(self)@ == apply_op(old(self)@, op.deep_view()),
    {
        match op {
            FibOp::EnsureNeighbor { interface, ip, mac } => self.put_neighbor(interface, ip, mac),
            FibOp::EnsureRoute { prefix, route } => self.put_route(prefix, route),
            FibOp::RemoveRoute { prefix } => {
                let ghost before = self@.routes;
                self.routes.remove(&prefix);
                assert(self@.routes =~= before.remove(prefix@));
            },
            FibOp::RemoveNeighbor { interface, ip } => {
                let ghost before = self@.neighbors;
                let ghost k = (interface@, ip@);
                let key = (interface, ip);
                assert(key@ == k);
                self.neighbors.remove(&key);
                assert(self@.neighbors =~= before.remove(k));
            },
        }
    }
}

/// A mirror value that never matches a real program, so a re-anchored
/// entry is always re-ensured (the RPCs are idempotent).
pub open spec fn unknown_program() -> RouteProgram {
    RouteProgram { cpu: true, drop: true, hops: Seq::empty() }
}

pub fn unknown_route() -> (r: WantedRoute)
    ensures
        r.deep_view() == unknown_program(),
{
    let r = WantedRoute { cpu: true, drop: true, hops: Vec::new() };
    assert(r.hops.deep_view() =~= Seq::<(Seq<char>, Seq<char>)>::empty());
    r
}

/// syncd's installed FIB, as a mirror whose entries always re-ensure
/// (targets are not dumped; the sentinel values never match).
pub fn anchored(routes: &Vec<String>, neighbors: &Vec<(String, String)>) -> (r: Program)
    ensures
        r.wf(),
        r@.routes == Map::new(
            |k: Seq<char>| routes.deep_view().contains(k),
            |k: Seq<char>| unknown_program(),
        ),
        r@.neighbors == Map::new(
            |k: (Seq<char>, Seq<char>)| neighbors.deep_view().contains(k),
            |k: (Seq<char>, Seq<char>)| Seq::<char>::empty(),
        ),
{
    let ghost rs = routes.deep_view();
    let ghost ns = neighbors.deep_view();
    let mut r = Program::new();
    let mut i: usize = 0;
    assert(r@.routes =~= Map::new(
        |k: Seq<char>| rs.take(0).contains(k),
        |k: Seq<char>| unknown_program(),
    ));
    while i < routes.len()
        invariant
            i <= routes@.len(),
            rs == routes.deep_view(),
            r.wf(),
            r@.neighbors == Map::<(Seq<char>, Seq<char>), Seq<char>>::empty(),
            r@.routes == Map::new(
                |k: Seq<char>| rs.take(i as int).contains(k),
                |k: Seq<char>| unknown_program(),
            ),
        decreases routes@.len() - i,
    {
        let ghost front = rs.take(i as int);
        let ghost next = rs.take(i + 1);
        r.put_route(routes[i].clone(), unknown_route());
        proof {
            assert(next =~= front.push(rs[i as int]));
            crate::rib::lemma_contains_push(front, rs[i as int]);
            assert(r@.routes =~= Map::new(
                |k: Seq<char>| next.contains(k),
                |k: Seq<char>| unknown_program(),
            ));
        }
        i = i + 1;
    }
    assert(rs.take(i as int) =~= rs);
    let mut k: usize = 0;
    assert(r@.neighbors =~= Map::new(
        |k: (Seq<char>, Seq<char>)| ns.take(0).contains(k),
        |k: (Seq<char>, Seq<char>)| Seq::<char>::empty(),
    ));
    while k < neighbors.len()
        invariant
            k <= neighbors@.len(),
            ns == neighbors.deep_view(),
            r.wf(),
            r@.routes == Map::new(
                |k: Seq<char>| rs.contains(k),
                |k: Seq<char>| unknown_program(),
            ),
            r@.neighbors == Map::new(
                |j: (Seq<char>, Seq<char>)| ns.take(k as int).contains(j),
                |j: (Seq<char>, Seq<char>)| Seq::<char>::empty(),
            ),
        decreases neighbors@.len() - k,
    {
        let ghost front = ns.take(k as int);
        let ghost next = ns.take(k + 1);
        let none = String::new();
        assert(none@ =~= Seq::<char>::empty());
        r.put_neighbor(neighbors[k].0.clone(), neighbors[k].1.clone(), none);
        proof {
            assert(ns[k as int] == (neighbors@[k as int].0@, neighbors@[k as int].1@));
            assert(next =~= front.push(ns[k as int]));
            crate::rib::lemma_contains_push(front, ns[k as int]);
            assert(r@.neighbors =~= Map::new(
                |j: (Seq<char>, Seq<char>)| next.contains(j),
                |j: (Seq<char>, Seq<char>)| Seq::<char>::empty(),
            ));
        }
        k = k + 1;
    }
    assert(ns.take(k as int) =~= ns);
    r
}

/// What a list with one more item holds.
pub proof fn lemma_contains_push<A>(s: Seq<A>, a: A)
    ensures
        forall|k: A| #[trigger] s.push(a).contains(k) <==> (s.contains(k) || k == a),
{
    assert forall|k: A| #[trigger] s.push(a).contains(k) <==> (s.contains(k) || k == a) by {
        if s.contains(k) {
            let j = choose|j: int| 0 <= j < s.len() && s[j] == k;
            assert(s.push(a)[j] == k);
        }
        if k == a {
            assert(s.push(a)[s.len() as int] == k);
        }
        if s.push(a).contains(k) && k != a {
            let j = choose|j: int| 0 <= j < s.push(a).len() && s.push(a)[j] == k;
            assert(s[j] == k);
        }
    }
}

/// One syncd push, in apply order.
#[derive(Debug, Clone, PartialEq, Eq)]
pub enum FibOp {
    EnsureNeighbor { interface: String, ip: String, mac: String },
    EnsureRoute { prefix: String, route: WantedRoute },
    RemoveRoute { prefix: String },
    RemoveNeighbor { interface: String, ip: String },
}

/// A push as mathematical values.
pub enum OpView {
    EnsureNeighbor { interface: Seq<char>, ip: Seq<char>, mac: Seq<char> },
    EnsureRoute { prefix: Seq<char>, route: RouteProgram },
    RemoveRoute { prefix: Seq<char> },
    RemoveNeighbor { interface: Seq<char>, ip: Seq<char> },
}

impl DeepView for FibOp {
    type V = OpView;

    open spec fn deep_view(&self) -> OpView {
        match *self {
            FibOp::EnsureNeighbor { interface, ip, mac } => OpView::EnsureNeighbor {
                interface: interface@,
                ip: ip@,
                mac: mac@,
            },
            FibOp::EnsureRoute { prefix, route } => OpView::EnsureRoute {
                prefix: prefix@,
                route: route.deep_view(),
            },
            FibOp::RemoveRoute { prefix } => OpView::RemoveRoute { prefix: prefix@ },
            FibOp::RemoveNeighbor { interface, ip } => OpView::RemoveNeighbor {
                interface: interface@,
                ip: ip@,
            },
        }
    }
}

/// What a push does to a program.
pub open spec fn apply_op(p: ProgramView, op: OpView) -> ProgramView {
    match op {
        OpView::EnsureNeighbor { interface, ip, mac } => ProgramView {
            neighbors: p.neighbors.insert((interface, ip), mac),
            ..p
        },
        OpView::EnsureRoute { prefix, route } => ProgramView {
            routes: p.routes.insert(prefix, route),
            ..p
        },
        OpView::RemoveRoute { prefix } => ProgramView { routes: p.routes.remove(prefix), ..p },
        OpView::RemoveNeighbor { interface, ip } => ProgramView {
            neighbors: p.neighbors.remove((interface, ip)),
            ..p
        },
    }
}

/// What a run of pushes does to a program.
pub open spec fn apply_ops(p: ProgramView, ops: Seq<OpView>) -> ProgramView
    decreases ops.len(),
{
    if ops.len() == 0 {
        p
    } else {
        apply_op(apply_ops(p, ops.drop_last()), ops.last())
    }
}

/// The neighbor pushes for the first `n` wanted neighbors, in key order.
pub open spec fn ensure_neighbors(
    wanted: Seq<((String, String), String)>,
    current: Map<(Seq<char>, Seq<char>), Seq<char>>,
    n: int,
) -> Seq<OpView>
    decreases n,
{
    if n <= 0 {
        Seq::empty()
    } else {
        let front = ensure_neighbors(wanted, current, n - 1);
        let k = wanted[n - 1].0@;
        let mac = wanted[n - 1].1@;
        if current.dom().contains(k) && current[k] == mac {
            front
        } else {
            front.push(OpView::EnsureNeighbor { interface: k.0, ip: k.1, mac })
        }
    }
}

/// The route pushes for the first `n` wanted routes, in prefix order.
pub open spec fn ensure_routes(
    wanted: Seq<(String, WantedRoute)>,
    current: Map<Seq<char>, RouteProgram>,
    n: int,
) -> Seq<OpView>
    decreases n,
{
    if n <= 0 {
        Seq::empty()
    } else {
        let front = ensure_routes(wanted, current, n - 1);
        let prefix = wanted[n - 1].0@;
        let route = wanted[n - 1].1.deep_view();
        if current.dom().contains(prefix) && current[prefix] == route {
            front
        } else {
            front.push(OpView::EnsureRoute { prefix, route })
        }
    }
}

/// The removals among the first `n` current routes.
pub open spec fn remove_routes(
    current: Seq<(String, WantedRoute)>,
    wanted: Map<Seq<char>, RouteProgram>,
    n: int,
) -> Seq<OpView>
    decreases n,
{
    if n <= 0 {
        Seq::empty()
    } else {
        let front = remove_routes(current, wanted, n - 1);
        if wanted.dom().contains(current[n - 1].0@) {
            front
        } else {
            front.push(OpView::RemoveRoute { prefix: current[n - 1].0@ })
        }
    }
}

/// The removals among the first `n` current neighbors.
pub open spec fn remove_neighbors(
    current: Seq<((String, String), String)>,
    wanted: Map<(Seq<char>, Seq<char>), Seq<char>>,
    n: int,
) -> Seq<OpView>
    decreases n,
{
    if n <= 0 {
        Seq::empty()
    } else {
        let front = remove_neighbors(current, wanted, n - 1);
        let k = current[n - 1].0@;
        if wanted.dom().contains(k) {
            front
        } else {
            front.push(OpView::RemoveNeighbor { interface: k.0, ip: k.1 })
        }
    }
}

/// The pushes that converge `current` onto `wanted`.
pub open spec fn diff_ops(current: Program, wanted: Program) -> Seq<OpView> {
    ensure_neighbors(
        wanted.neighbors.entries@,
        current@.neighbors,
        wanted.neighbors.entries@.len() as int,
    ) + ensure_routes(
        wanted.routes.entries@,
        current@.routes,
        wanted.routes.entries@.len() as int,
    ) + remove_routes(
        current.routes.entries@,
        wanted@.routes,
        current.routes.entries@.len() as int,
    ) + remove_neighbors(
        current.neighbors.entries@,
        wanted@.neighbors,
        current.neighbors.entries@.len() as int,
    )
}

fn same_hops(a: &Vec<(String, String)>, b: &Vec<(String, String)>) -> (r: bool)
    ensures
        r == (a.deep_view() == b.deep_view()),
{
    let ghost x = a.deep_view();
    let ghost y = b.deep_view();
    assert(x.len() == a@.len() && y.len() == b@.len());
    if a.len() != b.len() {
        return false;
    }
    let mut i: usize = 0;
    while i < a.len()
        invariant
            i <= a@.len() == b@.len(),
            x == a.deep_view(),
            y == b.deep_view(),
            forall|j: int| 0 <= j < i ==> x[j] == y[j],
        decreases a@.len() - i,
    {
        assert(x[i as int] == (a@[i as int].0@, a@[i as int].1@));
        assert(y[i as int] == (b@[i as int].0@, b@[i as int].1@));
        if !same_text(a[i].0.as_str(), b[i].0.as_str()) || !same_text(
            a[i].1.as_str(),
            b[i].1.as_str(),
        ) {
            return false;
        }
        i = i + 1;
    }
    assert(x =~= y);
    true
}

fn copy_hops(hops: &Vec<(String, String)>) -> (r: Vec<(String, String)>)
    ensures
        r.deep_view() == hops.deep_view(),
{
    let mut r: Vec<(String, String)> = Vec::new();
    let mut i: usize = 0;
    while i < hops.len()
        invariant
            i <= hops@.len(),
            r@.len() == i,
            forall|j: int| 0 <= j < i ==> (#[trigger] r@[j]).deep_view() == hops@[j].deep_view(),
        decreases hops@.len() - i,
    {
        r.push((hops[i].0.clone(), hops[i].1.clone()));
        i = i + 1;
    }
    assert(r.deep_view() =~= hops.deep_view());
    r
}

impl WantedRoute {
    fn same(&self, other: &WantedRoute) -> (r: bool)
        ensures
            r == (self.deep_view() == other.deep_view()),
    {
        self.cpu == other.cpu && self.drop == other.drop && same_hops(&self.hops, &other.hops)
    }

    fn copy(&self) -> (r: WantedRoute)
        ensures
            r.deep_view() == self.deep_view(),
    {
        WantedRoute { cpu: self.cpu, drop: self.drop, hops: copy_hops(&self.hops) }
    }
}

fn diff_neighbors(current: &Program, wanted: &Program, ops: &mut Vec<FibOp>)
    requires
        current.wf(),
        wanted.wf(),
    ensures
        final(ops).deep_view() == old(ops).deep_view() + ensure_neighbors(
            wanted.neighbors.entries@,
            current@.neighbors,
            wanted.neighbors.entries@.len() as int,
        ),
{
    let ghost before = ops.deep_view();
    let ghost w = wanted.neighbors.entries@;
    let ghost c = current@.neighbors;
    let mut i: usize = 0;
    assert(before + ensure_neighbors(w, c, 0) =~= before);
    while i < wanted.neighbors.entries.len()
        invariant
            i <= w.len(),
            w == wanted.neighbors.entries@,
            c == current@.neighbors,
            current.wf(),
            ops.deep_view() == before + ensure_neighbors(w, c, i as int),
        decreases w.len() - i,
    {
        let entry = &wanted.neighbors.entries[i];
        let ghost had = ops.deep_view();
        let same = match current.neighbors.get(&entry.0) {
            Some(mac) => same_text(mac.as_str(), entry.1.as_str()),
            None => false,
        };
        if !same {
            let op = FibOp::EnsureNeighbor {
                interface: entry.0.0.clone(),
                ip: entry.0.1.clone(),
                mac: entry.1.clone(),
            };
            let ghost v = op.deep_view();
            ops.push(op);
            assert(ops.deep_view() =~= had.push(v));
        }
        i = i + 1;
        assert(ops.deep_view() =~= before + ensure_neighbors(w, c, i as int));
    }
}

fn diff_routes(current: &Program, wanted: &Program, ops: &mut Vec<FibOp>)
    requires
        current.wf(),
        wanted.wf(),
    ensures
        final(ops).deep_view() == old(ops).deep_view() + ensure_routes(
            wanted.routes.entries@,
            current@.routes,
            wanted.routes.entries@.len() as int,
        ),
{
    let ghost before = ops.deep_view();
    let ghost w = wanted.routes.entries@;
    let ghost c = current@.routes;
    let mut i: usize = 0;
    assert(before + ensure_routes(w, c, 0) =~= before);
    while i < wanted.routes.entries.len()
        invariant
            i <= w.len(),
            w == wanted.routes.entries@,
            c == current@.routes,
            current.wf(),
            ops.deep_view() == before + ensure_routes(w, c, i as int),
        decreases w.len() - i,
    {
        let entry = &wanted.routes.entries[i];
        let ghost had = ops.deep_view();
        let same = match current.routes.get(&entry.0) {
            Some(route) => route.same(&entry.1),
            None => false,
        };
        if !same {
            let op = FibOp::EnsureRoute { prefix: entry.0.clone(), route: entry.1.copy() };
            let ghost v = op.deep_view();
            ops.push(op);
            assert(ops.deep_view() =~= had.push(v));
        }
        i = i + 1;
        assert(ops.deep_view() =~= before + ensure_routes(w, c, i as int));
    }
}

fn diff_stale_routes(current: &Program, wanted: &Program, ops: &mut Vec<FibOp>)
    requires
        current.wf(),
        wanted.wf(),
    ensures
        final(ops).deep_view() == old(ops).deep_view() + remove_routes(
            current.routes.entries@,
            wanted@.routes,
            current.routes.entries@.len() as int,
        ),
{
    let ghost before = ops.deep_view();
    let ghost w = wanted@.routes;
    let ghost c = current.routes.entries@;
    let mut i: usize = 0;
    assert(before + remove_routes(c, w, 0) =~= before);
    while i < current.routes.entries.len()
        invariant
            i <= c.len(),
            w == wanted@.routes,
            c == current.routes.entries@,
            wanted.wf(),
            ops.deep_view() == before + remove_routes(c, w, i as int),
        decreases c.len() - i,
    {
        let entry = &current.routes.entries[i];
        let ghost had = ops.deep_view();
        if !wanted.routes.contains(&entry.0) {
            let op = FibOp::RemoveRoute { prefix: entry.0.clone() };
            let ghost v = op.deep_view();
            ops.push(op);
            assert(ops.deep_view() =~= had.push(v));
        }
        i = i + 1;
        assert(ops.deep_view() =~= before + remove_routes(c, w, i as int));
    }
}

fn diff_stale_neighbors(current: &Program, wanted: &Program, ops: &mut Vec<FibOp>)
    requires
        current.wf(),
        wanted.wf(),
    ensures
        final(ops).deep_view() == old(ops).deep_view() + remove_neighbors(
            current.neighbors.entries@,
            wanted@.neighbors,
            current.neighbors.entries@.len() as int,
        ),
{
    let ghost before = ops.deep_view();
    let ghost w = wanted@.neighbors;
    let ghost c = current.neighbors.entries@;
    let mut i: usize = 0;
    assert(before + remove_neighbors(c, w, 0) =~= before);
    while i < current.neighbors.entries.len()
        invariant
            i <= c.len(),
            w == wanted@.neighbors,
            c == current.neighbors.entries@,
            wanted.wf(),
            ops.deep_view() == before + remove_neighbors(c, w, i as int),
        decreases c.len() - i,
    {
        let entry = &current.neighbors.entries[i];
        let ghost had = ops.deep_view();
        if !wanted.neighbors.contains(&entry.0) {
            let op = FibOp::RemoveNeighbor {
                interface: entry.0.0.clone(),
                ip: entry.0.1.clone(),
            };
            let ghost v = op.deep_view();
            ops.push(op);
            assert(ops.deep_view() =~= had.push(v));
        }
        i = i + 1;
        assert(ops.deep_view() =~= before + remove_neighbors(c, w, i as int));
    }
}

/// The pushes that converge `current` (syncd's mirror) onto `wanted`.
/// Neighbors land before the routes that resolve through them; stale
/// routes go before the neighbors they referenced.
pub fn diff_program(current: &Program, wanted: &Program) -> (ops: Vec<FibOp>)
    requires
        current.wf(),
        wanted.wf(),
    ensures
        ops.deep_view() == diff_ops(*current, *wanted),
{
    let mut ops: Vec<FibOp> = Vec::new();
    assert(ops.deep_view() =~= Seq::<OpView>::empty());
    diff_neighbors(current, wanted, &mut ops);
    diff_routes(current, wanted, &mut ops);
    diff_stale_routes(current, wanted, &mut ops);
    diff_stale_neighbors(current, wanted, &mut ops);
    assert(ops.deep_view() =~= diff_ops(*current, *wanted));
    ops
}

// ---------------------------------------------------- laws of the diff

proof fn lemma_apply_concat(p: ProgramView, a: Seq<OpView>, b: Seq<OpView>)
    ensures
        apply_ops(p, a + b) == apply_ops(apply_ops(p, a), b),
    decreases b.len(),
{
    if b.len() == 0 {
        assert(a + b =~= a);
    } else {
        assert((a + b).drop_last() =~= a + b.drop_last());
        lemma_apply_concat(p, a, b.drop_last());
    }
}

proof fn lemma_apply_push(p: ProgramView, a: Seq<OpView>, op: OpView)
    ensures
        apply_ops(p, a.push(op)) == apply_op(apply_ops(p, a), op),
{
    assert(a.push(op).drop_last() =~= a);
}

proof fn lemma_ensured_neighbors(p: ProgramView, wanted: Program, n: int)
    requires
        wanted.wf(),
        0 <= n <= wanted.neighbors.entries@.len(),
    ensures
        ({
            let w = wanted.neighbors.entries@;
            let q = apply_ops(p, ensure_neighbors(w, p.neighbors, n));
            &&& q.routes == p.routes
            &&& forall|k: (Seq<char>, Seq<char>)|
                #![trigger q.neighbors.dom().contains(k)]
                q.neighbors.dom().contains(k) <==> (p.neighbors.dom().contains(k) || crate::ordmap::has_key(w, n, k))
            &&& forall|k: (Seq<char>, Seq<char>)|
                #![trigger q.neighbors[k]]
                crate::ordmap::has_key(w, n, k) ==> q.neighbors[k] == wanted@.neighbors[k]
            &&& forall|k: (Seq<char>, Seq<char>)|
                #![trigger q.neighbors[k]]
                !crate::ordmap::has_key(w, n, k) && p.neighbors.dom().contains(k) ==> q.neighbors[k]
                    == p.neighbors[k]
        }),
    decreases n,
{
    let w = wanted.neighbors.entries@;
    if n > 0 {
        lemma_ensured_neighbors(p, wanted, n - 1);
        crate::ordmap::lemma_has_key_next(w, n - 1);
        crate::ordmap::lemma_map_of_entry(w, n - 1);
        let k = w[n - 1].0@;
        let front = ensure_neighbors(w, p.neighbors, n - 1);
        let op = OpView::EnsureNeighbor { interface: k.0, ip: k.1, mac: w[n - 1].1@ };
        lemma_apply_push(p, front, op);
        assert(wanted@.neighbors[k] == w[n - 1].1@);
    }
}

proof fn lemma_ensured_routes(p: ProgramView, wanted: Program, n: int)
    requires
        wanted.wf(),
        0 <= n <= wanted.routes.entries@.len(),
    ensures
        ({
            let w = wanted.routes.entries@;
            let q = apply_ops(p, ensure_routes(w, p.routes, n));
            &&& q.neighbors == p.neighbors
            &&& forall|k: Seq<char>|
                #![trigger q.routes.dom().contains(k)]
                q.routes.dom().contains(k) <==> (p.routes.dom().contains(k) || crate::ordmap::has_key(w, n, k))
            &&& forall|k: Seq<char>|
                #![trigger q.routes[k]]
                crate::ordmap::has_key(w, n, k) ==> q.routes[k] == wanted@.routes[k]
            &&& forall|k: Seq<char>|
                #![trigger q.routes[k]]
                !crate::ordmap::has_key(w, n, k) && p.routes.dom().contains(k) ==> q.routes[k] == p.routes[k]
        }),
    decreases n,
{
    let w = wanted.routes.entries@;
    if n > 0 {
        lemma_ensured_routes(p, wanted, n - 1);
        crate::ordmap::lemma_has_key_next(w, n - 1);
        crate::ordmap::lemma_map_of_entry(w, n - 1);
        let k = w[n - 1].0@;
        let front = ensure_routes(w, p.routes, n - 1);
        let op = OpView::EnsureRoute { prefix: k, route: w[n - 1].1.deep_view() };
        lemma_apply_push(p, front, op);
        assert(wanted@.routes[k] == w[n - 1].1.deep_view());
    }
}

proof fn lemma_removed_routes(
    p: ProgramView,
    current: Seq<(String, WantedRoute)>,
    wanted: Map<Seq<char>, RouteProgram>,
    n: int,
)
    requires
        0 <= n <= current.len(),
    ensures
        ({
            let q = apply_ops(p, remove_routes(current, wanted, n));
            &&& q.neighbors == p.neighbors
            &&& forall|k: Seq<char>|
                #![trigger q.routes.dom().contains(k)]
                q.routes.dom().contains(k) <==> (p.routes.dom().contains(k) && (
                wanted.dom().contains(k) || !crate::ordmap::has_key(current, n, k)))
            &&& forall|k: Seq<char>|
                #![trigger q.routes[k]]
                q.routes.dom().contains(k) ==> q.routes[k] == p.routes[k]
        }),
    decreases n,
{
    if n > 0 {
        lemma_removed_routes(p, current, wanted, n - 1);
        crate::ordmap::lemma_has_key_next(current, n - 1);
        let k = current[n - 1].0@;
        lemma_apply_push(
            p,
            remove_routes(current, wanted, n - 1),
            OpView::RemoveRoute { prefix: k },
        );
    }
}

proof fn lemma_removed_neighbors(
    p: ProgramView,
    current: Seq<((String, String), String)>,
    wanted: Map<(Seq<char>, Seq<char>), Seq<char>>,
    n: int,
)
    requires
        0 <= n <= current.len(),
    ensures
        ({
            let q = apply_ops(p, remove_neighbors(current, wanted, n));
            &&& q.routes == p.routes
            &&& forall|k: (Seq<char>, Seq<char>)|
                #![trigger q.neighbors.dom().contains(k)]
                q.neighbors.dom().contains(k) <==> (p.neighbors.dom().contains(k) && (
                wanted.dom().contains(k) || !crate::ordmap::has_key(current, n, k)))
            &&& forall|k: (Seq<char>, Seq<char>)|
                #![trigger q.neighbors[k]]
                q.neighbors.dom().contains(k) ==> q.neighbors[k] == p.neighbors[k]
        }),
    decreases n,
{
    if n > 0 {
        lemma_removed_neighbors(p, current, wanted, n - 1);
        crate::ordmap::lemma_has_key_next(current, n - 1);
        let k = current[n - 1].0@;
        lemma_apply_push(
            p,
            remove_neighbors(current, wanted, n - 1),
            OpView::RemoveNeighbor { interface: k.0, ip: k.1 },
        );
    }
}

/// Applying the pushes of a diff to the current program gives the wanted
/// program, whatever the two are.
pub proof fn lemma_diff_converges(current: Program, wanted: Program)
    requires
        current.wf(),
        wanted.wf(),
    ensures
        apply_ops(current@, diff_ops(current, wanted)) == wanted@,
{
    let wn = wanted.neighbors.entries@;
    let wr = wanted.routes.entries@;
    let cr = current.routes.entries@;
    let cn = current.neighbors.entries@;
    let a = ensure_neighbors(wn, current@.neighbors, wn.len() as int);
    let b = ensure_routes(wr, current@.routes, wr.len() as int);
    let c = remove_routes(cr, wanted@.routes, cr.len() as int);
    let d = remove_neighbors(cn, wanted@.neighbors, cn.len() as int);
    let p1 = apply_ops(current@, a);
    let p2 = apply_ops(p1, b);
    let p3 = apply_ops(p2, c);
    let p4 = apply_ops(p3, d);
    lemma_apply_concat(current@, a, b);
    lemma_apply_concat(current@, a + b, c);
    lemma_apply_concat(current@, a + b + c, d);
    lemma_ensured_neighbors(current@, wanted, wn.len() as int);
    assert(p1.routes == current@.routes);
    lemma_ensured_routes(p1, wanted, wr.len() as int);
    lemma_removed_routes(p2, cr, wanted@.routes, cr.len() as int);
    lemma_removed_neighbors(p3, cn, wanted@.neighbors, cn.len() as int);
    assert forall|k: Seq<char>| crate::ordmap::has_key(wr, wr.len() as int, k) <==> wanted@.routes.dom().contains(
        k,
    ) by {}
    assert forall|k: Seq<char>| crate::ordmap::has_key(cr, cr.len() as int, k) <==> current@.routes.dom().contains(
        k,
    ) by {}
    assert forall|k: (Seq<char>, Seq<char>)|
        crate::ordmap::has_key(wn, wn.len() as int, k) <==> wanted@.neighbors.dom().contains(k) by {}
    assert forall|k: (Seq<char>, Seq<char>)|
        crate::ordmap::has_key(cn, cn.len() as int, k) <==> current@.neighbors.dom().contains(k) by {}
    assert(p4.routes =~= wanted@.routes);
    assert(p4.neighbors =~= wanted@.neighbors);
}

/// Where a push stands in the apply order.
pub open spec fn op_rank(op: OpView) -> int {
    match op {
        OpView::EnsureNeighbor { .. } => 0,
        OpView::EnsureRoute { .. } => 1,
        OpView::RemoveRoute { .. } => 2,
        OpView::RemoveNeighbor { .. } => 3,
    }
}

/// Every push of a run has one rank.
pub open spec fn all_ranked(ops: Seq<OpView>, rank: int) -> bool {
    forall|i: int| 0 <= i < ops.len() ==> op_rank(#[trigger] ops[i]) == rank
}

proof fn lemma_ranks(current: Program, wanted: Program, n: int)
    ensures
        all_ranked(ensure_neighbors(wanted.neighbors.entries@, current@.neighbors, n), 0),
        all_ranked(ensure_routes(wanted.routes.entries@, current@.routes, n), 1),
        all_ranked(remove_routes(current.routes.entries@, wanted@.routes, n), 2),
        all_ranked(remove_neighbors(current.neighbors.entries@, wanted@.neighbors, n), 3),
    decreases n,
{
    if n > 0 {
        lemma_ranks(current, wanted, n - 1);
    }
}

/// Neighbors land before the routes that resolve through them, and stale
/// routes go before the neighbors they referenced.
pub proof fn lemma_diff_order(current: Program, wanted: Program, i: int, j: int)
    requires
        0 <= i <= j < diff_ops(current, wanted).len(),
    ensures
        op_rank(diff_ops(current, wanted)[i]) <= op_rank(diff_ops(current, wanted)[j]),
{
    lemma_ranks(current, wanted, wanted.neighbors.entries@.len() as int);
    lemma_ranks(current, wanted, wanted.routes.entries@.len() as int);
    lemma_ranks(current, wanted, current.routes.entries@.len() as int);
    lemma_ranks(current, wanted, current.neighbors.entries@.len() as int);
}

// ------------------------------------------------------------ derivation

/// Link-local and multicast destinations never reach the ASIC FIB, nor
/// does what is no prefix.
pub open spec fn skipped(prefix: Seq<char>) -> bool {
    match crate::text::cut_text(prefix, '/') {
        None => true,
        Some((addr, _)) => match crate::ip::ip_value(addr) {
            Some(IpAddr::V4(a)) => a.spec_multicast() || a.spec_link_local(),
            Some(IpAddr::V6(a)) => a.spec_multicast() || a.spec_link_local(),
            None => true,
        },
    }
}

fn skip_prefix(prefix: &str) -> (r: bool)
    ensures
        r == skipped(prefix@),
{
    match cut(prefix, '/') {
        None => true,
        Some((addr, _)) => match parse_ip(addr.as_str()) {
            Some(IpAddr::V4(a)) => a.is_multicast() || a.is_link_local(),
            Some(IpAddr::V6(a)) => a.is_multicast() || a.is_link_local(),
            None => true,
        },
    }
}

/// A neighbor that is programmed: resolved, confirmed, and out an ASIC L3
/// interface.
pub open spec fn usable(n: KernelNeighbor, l3: Set<Seq<char>>) -> bool {
    n.mac is Some && l3.contains(n.dev@) && (n.reachable || n.permanent)
}

/// The neighbors of the wanted program, out of the first `n` kernel
/// neighbors.
pub open spec fn wanted_neighbors(
    ns: Seq<KernelNeighbor>,
    l3: Set<Seq<char>>,
    n: int,
) -> Map<(Seq<char>, Seq<char>), Seq<char>>
    decreases n,
{
    if n <= 0 {
        Map::empty()
    } else {
        let front = wanted_neighbors(ns, l3, n - 1);
        if usable(ns[n - 1], l3) {
            front.insert((ns[n - 1].dev@, ns[n - 1].ip@), ns[n - 1].mac->0@)
        } else {
            front
        }
    }
}

/// A next hop through a gateway out an ASIC L3 interface.
pub open spec fn asic_hop(h: KernelHop, l3: Set<Seq<char>>) -> bool {
    h.via is Some && h.dev is Some && l3.contains(h.dev->0@)
}

pub open spec fn has_asic_hop(hops: Seq<KernelHop>, l3: Set<Seq<char>>) -> bool {
    exists|i: int| 0 <= i < hops.len() && asic_hop(#[trigger] hops[i], l3)
}

/// The resolved next hops among the first `n`: those whose neighbor is
/// programmed.
pub open spec fn resolved_hops(
    hops: Seq<KernelHop>,
    l3: Set<Seq<char>>,
    neighbors: Map<(Seq<char>, Seq<char>), Seq<char>>,
    n: int,
) -> Seq<(Seq<char>, Seq<char>)>
    decreases n,
{
    if n <= 0 {
        Seq::empty()
    } else {
        let front = resolved_hops(hops, l3, neighbors, n - 1);
        let h = hops[n - 1];
        if asic_hop(h, l3) && neighbors.dom().contains((h.dev->0@, h.via->0@)) {
            front.push((h.dev->0@, h.via->0@))
        } else {
            front
        }
    }
}

/// What one kernel route wants of the FIB.
pub open spec fn wanted_route(
    r: KernelRoute,
    l3: Set<Seq<char>>,
    neighbors: Map<(Seq<char>, Seq<char>), Seq<char>>,
) -> Option<RouteProgram> {
    let resolved = resolved_hops(r.hops@, l3, neighbors, r.hops@.len() as int);
    if skipped(r.prefix@) {
        None
    } else if r.blackhole {
        Some(RouteProgram { cpu: false, drop: true, hops: Seq::empty() })
    } else if has_asic_hop(r.hops@, l3) {
        Some(RouteProgram { cpu: resolved.len() == 0, drop: false, hops: resolved })
    } else {
        None
    }
}

/// The routes of the wanted program, out of the first `n` kernel routes.
pub open spec fn wanted_routes(
    rs: Seq<KernelRoute>,
    l3: Set<Seq<char>>,
    neighbors: Map<(Seq<char>, Seq<char>), Seq<char>>,
    n: int,
) -> Map<Seq<char>, RouteProgram>
    decreases n,
{
    if n <= 0 {
        Map::empty()
    } else {
        let front = wanted_routes(rs, l3, neighbors, n - 1);
        match wanted_route(rs[n - 1], l3, neighbors) {
            Some(p) => front.insert(rs[n - 1].prefix@, p),
            None => front,
        }
    }
}

/// The wanted program of a kernel snapshot.
pub open spec fn derived(
    rs: Seq<KernelRoute>,
    ns: Seq<KernelNeighbor>,
    l3: Set<Seq<char>>,
) -> ProgramView {
    let neighbors = wanted_neighbors(ns, l3, ns.len() as int);
    ProgramView { routes: wanted_routes(rs, l3, neighbors, rs.len() as int), neighbors }
}

fn add_neighbors(program: &mut Program, neighbors: &Vec<KernelNeighbor>, l3: &TextSet)
    requires
        old(program).wf(),
        l3.wf(),
        old(program)@ == (ProgramView { routes: Map::empty(), neighbors: Map::empty() }),
    ensures
        final(program).wf(),
        final(program)@.routes == Map::<Seq<char>, RouteProgram>::empty(),
        final(program)@.neighbors == wanted_neighbors(
            neighbors@,
            l3@.dom(),
            neighbors@.len() as int,
        ),
{
    let ghost names = l3@.dom();
    let mut i: usize = 0;
    while i < neighbors.len()
        invariant
            i <= neighbors@.len(),
            program.wf(),
            l3.wf(),
            names == l3@.dom(),
            program@.routes == Map::<Seq<char>, RouteProgram>::empty(),
            program@.neighbors == wanted_neighbors(neighbors@, names, i as int),
        decreases neighbors@.len() - i,
    {
        let n = &neighbors[i];
        match &n.mac {
            Some(mac) => {
                if l3.has(n.dev.as_str()) && (n.reachable || n.permanent) {
                    program.put_neighbor(n.dev.clone(), n.ip.clone(), mac.clone());
                }
            },
            None => {},
        }
        i = i + 1;
    }
}

/// The resolved next hops of a route, and whether any hop leaves through
/// the ASIC.
fn resolve_hops(hops: &Vec<KernelHop>, l3: &TextSet, program: &Program) -> (r: (
    Vec<(String, String)>,
    bool,
))
    requires
        l3.wf(),
        program.wf(),
    ensures
        r.0.deep_view() == resolved_hops(
            hops@,
            l3@.dom(),
            program@.neighbors,
            hops@.len() as int,
        ),
        r.1 == has_asic_hop(hops@, l3@.dom()),
{
    let ghost names = l3@.dom();
    let ghost known = program@.neighbors;
    let mut resolved: Vec<(String, String)> = Vec::new();
    let mut any = false;
    let mut i: usize = 0;
    assert(resolved.deep_view() =~= Seq::<(Seq<char>, Seq<char>)>::empty());
    while i < hops.len()
        invariant
            i <= hops@.len(),
            l3.wf(),
            program.wf(),
            names == l3@.dom(),
            known == program@.neighbors,
            resolved.deep_view() == resolved_hops(hops@, names, known, i as int),
            any == (exists|j: int| 0 <= j < i && asic_hop(#[trigger] hops@[j], names)),
        decreases hops@.len() - i,
    {
        let ghost before = resolved.deep_view();
        match (&hops[i].via, &hops[i].dev) {
            (Some(via), Some(dev)) => {
                if l3.has(dev.as_str()) {
                    assert(asic_hop(hops@[i as int], names));
                    any = true;
                    if program.has_neighbor(dev.as_str(), via.as_str()) {
                        resolved.push((dev.clone(), via.clone()));
                        assert(resolved.deep_view() =~= before.push((dev@, via@)));
                    }
                }
            },
            _ => {},
        }
        i = i + 1;
    }
    (resolved, any)
}

/// The pure translation: kernel snapshot -> wanted FIB program.
pub fn derive_program(
    routes: &Vec<KernelRoute>,
    neighbors: &Vec<KernelNeighbor>,
    l3: &TextSet,
) -> (program: Program)
    requires
        l3.wf(),
    ensures
        program.wf(),
        program@ == derived(routes@, neighbors@, l3@.dom()),
{
    let mut program = Program::new();
    add_neighbors(&mut program, neighbors, l3);
    let ghost names = l3@.dom();
    let ghost known = program@.neighbors;
    let mut i: usize = 0;
    while i < routes.len()
        invariant
            i <= routes@.len(),
            program.wf(),
            l3.wf(),
            names == l3@.dom(),
            known == program@.neighbors,
            program@.routes == wanted_routes(routes@, names, known, i as int),
        decreases routes@.len() - i,
    {
        let route = &routes[i];
        if !skip_prefix(route.prefix.as_str()) {
            if route.blackhole {
                let nothing: Vec<(String, String)> = Vec::new();
                assert(nothing.deep_view() =~= Seq::<(Seq<char>, Seq<char>)>::empty());
                program.put_route(
                    route.prefix.clone(),
                    WantedRoute { cpu: false, drop: true, hops: nothing },
                );
            } else {
                let (resolved, any) = resolve_hops(&route.hops, l3, &program);
                assert(resolved.deep_view().len() == resolved@.len());
                if any {
                    program.put_route(
                        route.prefix.clone(),
                        WantedRoute { cpu: resolved.len() == 0, drop: false, hops: resolved },
                    );
                }
            }
        }
        i = i + 1;
    }
    assert(program@ =~= derived(routes@, neighbors@, names));
    program
}

/// Every hop of a list is a programmed neighbor out an ASIC L3 interface.
pub open spec fn hops_known(
    hops: Seq<(Seq<char>, Seq<char>)>,
    l3: Set<Seq<char>>,
    neighbors: Map<(Seq<char>, Seq<char>), Seq<char>>,
) -> bool {
    forall|i: int|
        0 <= i < hops.len() ==> neighbors.dom().contains(#[trigger] hops[i]) && l3.contains(
            hops[i].0,
        )
}

proof fn lemma_resolved_known(
    hops: Seq<KernelHop>,
    l3: Set<Seq<char>>,
    neighbors: Map<(Seq<char>, Seq<char>), Seq<char>>,
    n: int,
)
    ensures
        hops_known(resolved_hops(hops, l3, neighbors, n), l3, neighbors),
    decreases n,
{
    if n > 0 {
        lemma_resolved_known(hops, l3, neighbors, n - 1);
    }
}

/// Resolve-via-punt: a programmed route punts exactly while it has no
/// resolved next hop (a null route excepted, which has none and drops),
/// and every next hop it has is a programmed neighbor out an ASIC L3
/// interface. Link-local and multicast prefixes are never programmed.
pub proof fn lemma_resolve_via_punt(
    rs: Seq<KernelRoute>,
    l3: Set<Seq<char>>,
    neighbors: Map<(Seq<char>, Seq<char>), Seq<char>>,
    n: int,
    prefix: Seq<char>,
)
    requires
        0 <= n <= rs.len(),
        wanted_routes(rs, l3, neighbors, n).dom().contains(prefix),
    ensures
        ({
            let p = wanted_routes(rs, l3, neighbors, n)[prefix];
            &&& p.cpu <==> (p.hops.len() == 0 && !p.drop)
            &&& p.drop ==> p.hops.len() == 0
            &&& hops_known(p.hops, l3, neighbors)
            &&& !skipped(prefix)
        }),
    decreases n,
{
    if n > 0 {
        let r = rs[n - 1];
        lemma_resolved_known(r.hops@, l3, neighbors, r.hops@.len() as int);
        if wanted_route(r, l3, neighbors) is Some && r.prefix@ == prefix {
        } else {
            lemma_resolve_via_punt(rs, l3, neighbors, n - 1, prefix);
        }
    }
}

/// A re-anchored mirror holds no route that a kernel snapshot could want,
/// so every wanted route is pushed again.
pub proof fn lemma_unknown_never_wanted(
    rs: Seq<KernelRoute>,
    l3: Set<Seq<char>>,
    neighbors: Map<(Seq<char>, Seq<char>), Seq<char>>,
    n: int,
    prefix: Seq<char>,
)
    requires
        0 <= n <= rs.len(),
        wanted_routes(rs, l3, neighbors, n).dom().contains(prefix),
    ensures
        wanted_routes(rs, l3, neighbors, n)[prefix] != unknown_program(),
{
    lemma_resolve_via_punt(rs, l3, neighbors, n, prefix);
}

// ----------------------------------------------------------------- views

/// One `show ip route` row.
#[derive(Debug, Clone)]
pub struct RouteView {
    pub prefix: String,
    /// "connected" | "static" | "kernel" | "ospf" | "bgp".
    pub protocol: String,
    pub distance: u32,
    pub metric: u32,
    pub uptime_secs: u64,
    pub hops: Vec<HopView>,
    /// "programmed" | "punt" | "drop" | "connected" | "kernel".
    pub fib: &'static str,
    /// The egress interface of a connected route.
    pub interface: Option<String>,
}

#[derive(Debug, Clone)]
pub struct HopView {
    pub via: String,
    pub interface: String,
    pub resolved: bool,
}

/// One `show arp` row.
#[derive(Debug, Clone)]
pub struct NeighborView {
    pub ip: String,
    pub mac: String,
    pub interface: String,
    pub permanent: bool,
    pub age_secs: Option<u64>,
}

/// A directly connected route: no null route, and no hop has a gateway.
pub open spec fn is_connected(r: KernelRoute) -> bool {
    !r.blackhole && forall|i: int| 0 <= i < r.hops@.len() ==> (#[trigger] r.hops@[i]).via is None
}

/// How a route's origin, distance and metric are shown. The configured
/// distance rides the kernel metric (the OS applier omits it at the default
/// distance of 1; the kernel then reports 0 for v4 and 1024 for v6).
pub open spec fn shown_protocol(r: KernelRoute) -> (Seq<char>, u32, u32) {
    let p = r.protocol@;
    if is_connected(r) {
        ("connected"@, 0u32, 0u32)
    } else if p == "static"@ || p == "boot"@ {
        (
            "static"@,
            if r.metric == 0 || (r.metric == 1024 && r.prefix@.contains(':')) {
                1u32
            } else {
                r.metric
            },
            0u32,
        )
    } else if p == "ospf"@ {
        ("ospf"@, 110u32, r.metric)
    } else if p == "bgp"@ {
        ("bgp"@, 200u32, r.metric)
    } else {
        ("kernel"@, 0u32, r.metric)
    }
}

/// The egress interface of a connected route: the device of its first hop.
pub open spec fn connected_interface(r: KernelRoute) -> Option<Seq<char>> {
    if is_connected(r) && r.hops@.len() > 0 {
        crate::text::option_text(r.hops@[0].dev)
    } else {
        None
    }
}

/// Where a route stands in the FIB. Connected routes on non-ASIC devices
/// (the management netdev) stay in the view but are tagged as kernel routes.
pub open spec fn shown_fib(
    r: KernelRoute,
    wanted: Map<Seq<char>, RouteProgram>,
    l3: Set<Seq<char>>,
) -> Seq<char> {
    if is_connected(r) && connected_interface(r) is Some && !l3.contains(
        connected_interface(r)->0,
    ) {
        "kernel"@
    } else if r.blackhole {
        "drop"@
    } else if is_connected(r) {
        "connected"@
    } else if !wanted.dom().contains(r.prefix@) {
        "kernel"@
    } else if wanted[r.prefix@].cpu {
        "punt"@
    } else {
        "programmed"@
    }
}

/// A hop of a view, as mathematical values.
pub struct HopModel {
    pub via: Seq<char>,
    pub interface: Seq<char>,
    pub resolved: bool,
}

impl DeepView for HopView {
    type V = HopModel;

    open spec fn deep_view(&self) -> HopModel {
        HopModel { via: self.via@, interface: self.interface@, resolved: self.resolved }
    }
}

/// The gateway hops among the first `n`, as they are shown.
pub open spec fn shown_hops(
    hops: Seq<KernelHop>,
    neighbors: Map<(Seq<char>, Seq<char>), Seq<char>>,
    n: int,
) -> Seq<HopModel>
    decreases n,
{
    if n <= 0 {
        Seq::empty()
    } else {
        let front = shown_hops(hops, neighbors, n - 1);
        let h = hops[n - 1];
        let dev = match h.dev {
            Some(d) => d@,
            None => Seq::<char>::empty(),
        };
        match h.via {
            Some(via) => front.push(
                HopModel {
                    via: via@,
                    interface: dev,
                    resolved: neighbors.dom().contains((dev, via@)),
                },
            ),
            None => front,
        }
    }
}

/// Seconds since a prefix was first seen; 0 where it never was.
pub open spec fn uptime(seen: Map<Seq<char>, u64>, prefix: Seq<char>, now: u64) -> int {
    if seen.dom().contains(prefix) && seen[prefix] <= now {
        (now - seen[prefix]) / 1000
    } else {
        0
    }
}

/// A row of `show ip route` is what the kernel route, the wanted program
/// and the clock say.
pub open spec fn is_route_view(
    v: RouteView,
    r: KernelRoute,
    wanted: ProgramView,
    l3: Set<Seq<char>>,
    seen: Map<Seq<char>, u64>,
    now: u64,
) -> bool {
    &&& v.prefix@ == r.prefix@
    &&& (v.protocol@, v.distance, v.metric) == shown_protocol(r)
    &&& v.uptime_secs == uptime(seen, r.prefix@, now)
    &&& v.hops.deep_view() == shown_hops(r.hops@, wanted.neighbors, r.hops@.len() as int)
    &&& v.fib@ == shown_fib(r, wanted.routes, l3)
    &&& crate::text::option_text(v.interface) == connected_interface(r)
}

fn check_connected(r: &KernelRoute) -> (c: bool)
    ensures
        c == is_connected(*r),
{
    if r.blackhole {
        return false;
    }
    let mut i: usize = 0;
    while i < r.hops.len()
        invariant
            !r.blackhole,
            i <= r.hops@.len(),
            forall|j: int| 0 <= j < i ==> (#[trigger] r.hops@[j]).via is None,
        decreases r.hops@.len() - i,
    {
        if r.hops[i].via.is_some() {
            assert(r.hops@[i as int].via is Some);
            return false;
        }
        i = i + 1;
    }
    true
}

fn protocol_of(r: &KernelRoute, connected: bool) -> (p: (String, u32, u32))
    requires
        connected == is_connected(*r),
    ensures
        (p.0@, p.1, p.2) == shown_protocol(*r),
{
    let tag = r.protocol.as_str();
    if connected {
        ("connected".to_owned(), 0, 0)
    } else if same_text(tag, "static") || same_text(tag, "boot") {
        let distance: u32 = if r.metric == 0 || (r.metric == 1024 && has_char(
            r.prefix.as_str(),
            ':',
        )) {
            1
        } else {
            r.metric
        };
        ("static".to_owned(), distance, 0)
    } else if same_text(tag, "ospf") {
        ("ospf".to_owned(), 110, r.metric)
    } else if same_text(tag, "bgp") {
        ("bgp".to_owned(), 200, r.metric)
    } else {
        ("kernel".to_owned(), 0, r.metric)
    }
}

fn hop_views(hops: &Vec<KernelHop>, wanted: &Program) -> (r: Vec<HopView>)
    requires
        wanted.wf(),
    ensures
        r.deep_view() == shown_hops(hops@, wanted@.neighbors, hops@.len() as int),
{
    let mut r: Vec<HopView> = Vec::new();
    let mut i: usize = 0;
    assert(r.deep_view() =~= Seq::<HopModel>::empty());
    while i < hops.len()
        invariant
            i <= hops@.len(),
            wanted.wf(),
            r.deep_view() == shown_hops(hops@, wanted@.neighbors, i as int),
        decreases hops@.len() - i,
    {
        let ghost before = r.deep_view();
        match &hops[i].via {
            Some(via) => {
                let dev = match &hops[i].dev {
                    Some(d) => d.clone(),
                    None => String::new(),
                };
                let resolved = wanted.has_neighbor(dev.as_str(), via.as_str());
                let view = HopView { via: via.clone(), interface: dev, resolved };
                let ghost v = view.deep_view();
                r.push(view);
                assert(r.deep_view() =~= before.push(v));
            },
            None => {},
        }
        i = i + 1;
    }
    r
}

fn route_view(
    route: &KernelRoute,
    wanted: &Program,
    l3: &TextSet,
    first_seen: &OrdMap<String, u64>,
    now: u64,
) -> (r: Option<RouteView>)
    requires
        wanted.wf(),
        l3.wf(),
        first_seen.wf(),
    ensures
        match r {
            Some(v) => !skipped(route.prefix@) && is_route_view(
                v,
                *route,
                wanted@,
                l3@.dom(),
                first_seen@,
                now,
            ),
            None => skipped(route.prefix@),
        },
{
    if skip_prefix(route.prefix.as_str()) {
        return None;
    }
    let uptime_secs: u64 = match first_seen.get(&route.prefix) {
        Some(t) => if *t <= now {
            (now - *t) / 1000
        } else {
            0
        },
        None => 0,
    };
    let connected = check_connected(route);
    let (protocol, distance, metric) = protocol_of(route, connected);
    let interface = if connected && route.hops.len() > 0 {
        copy_option(&route.hops[0].dev)
    } else {
        None
    };
    let off_asic = match &interface {
        Some(i) => connected && !l3.has(i.as_str()),
        None => false,
    };
    let fib: &'static str = if off_asic {
        "kernel"
    } else if route.blackhole {
        "drop"
    } else if connected {
        "connected"
    } else {
        match wanted.routes.get(&route.prefix) {
            Some(w) => if w.cpu {
                "punt"
            } else {
                "programmed"
            },
            None => "kernel",
        }
    };
    Some(
        RouteView {
            prefix: route.prefix.clone(),
            protocol,
            distance,
            metric,
            uptime_secs,
            hops: hop_views(&route.hops, wanted),
            fib,
            interface,
        },
    )
}

/// Numeric sort key of an address: none before any, then IPv4, then IPv6.
pub open spec fn opt_ip_before(a: Option<IpAddr>, b: Option<IpAddr>) -> bool {
    match (a, b) {
        (None, Some(_)) => true,
        (Some(x), Some(y)) => crate::ip::ip_before(x, y),
        _ => false,
    }
}

/// Numeric sort key for a canonical prefix.
pub open spec fn prefix_rank(prefix: Seq<char>) -> (Option<IpAddr>, u8) {
    match crate::text::cut_text(prefix, '/') {
        Some((addr, len)) => (
            crate::ip::ip_value(addr),
            match crate::text::unsigned_upto(len, 10, 255) {
                Some(n) => n as u8,
                None => 255,
            },
        ),
        None => (None, 255),
    }
}

pub open spec fn rank_before(a: (Option<IpAddr>, u8), b: (Option<IpAddr>, u8)) -> bool {
    opt_ip_before(a.0, b.0) || (a.0 == b.0 && a.1 < b.1)
}

fn prefix_key(prefix: &str) -> (r: (Option<IpAddr>, u8))
    ensures
        r == prefix_rank(prefix@),
{
    match cut(prefix, '/') {
        Some((addr, len)) => {
            let n: u8 = match parse_decimal(len.as_str(), 255) {
                Some(n) => n as u8,
                None => 255,
            };
            (parse_ip(addr.as_str()), n)
        },
        None => (None, 255),
    }
}

fn is_opt_ip_before(a: Option<IpAddr>, b: Option<IpAddr>) -> (r: bool)
    ensures
        r == opt_ip_before(a, b),
{
    match (a, b) {
        (None, Some(_)) => true,
        (Some(x), Some(y)) => crate::ordmap::Key::is_before(&x, &y),
        _ => false,
    }
}

fn is_rank_before(a: (Option<IpAddr>, u8), b: (Option<IpAddr>, u8)) -> (r: bool)
    ensures
        r == rank_before(a, b),
{
    let same = match (a.0, b.0) {
        (None, None) => true,
        (Some(x), Some(y)) => x == y,
        _ => false,
    };
    is_opt_ip_before(a.0, b.0) || (same && a.1 < b.1)
}

/// A row put behind those that do not sort after it.
pub open spec fn insert_view(s: Seq<RouteView>, v: RouteView) -> Seq<RouteView>
    decreases s.len(),
{
    if s.len() == 0 || !rank_before(prefix_rank(v.prefix@), prefix_rank(s.last().prefix@)) {
        s.push(v)
    } else {
        insert_view(s.drop_last(), v).push(s.last())
    }
}

/// Rows sorted by prefix; rows of one prefix keep their order.
pub open spec fn by_prefix(s: Seq<RouteView>) -> Seq<RouteView>
    decreases s.len(),
{
    if s.len() == 0 {
        s
    } else {
        insert_view(by_prefix(s.drop_last()), s.last())
    }
}

fn add_view(views: &mut Vec<RouteView>, view: RouteView)
    ensures
        final(views)@ == insert_view(old(views)@, view),
    decreases old(views)@.len(),
{
    let ghost before = views@;
    let len: usize = views.len();
    if len == 0 || !is_rank_before(
        prefix_key(view.prefix.as_str()),
        prefix_key(views[len - 1].prefix.as_str()),
    ) {
        views.push(view);
    } else {
        match views.pop() {
            Some(last) => {
                assert(views@ =~= before.drop_last());
                add_view(views, view);
                views.push(last);
            },
            None => {},
        }
    }
}

/// The routes of one family that are shown, among the first `n`.
pub open spec fn shown_routes(rs: Seq<KernelRoute>, v6: bool, n: int) -> Seq<KernelRoute>
    decreases n,
{
    if n <= 0 {
        Seq::empty()
    } else if rs[n - 1].prefix@.contains(':') == v6 && !skipped(rs[n - 1].prefix@) {
        shown_routes(rs, v6, n - 1).push(rs[n - 1])
    } else {
        shown_routes(rs, v6, n - 1)
    }
}

pub open spec fn are_route_views(
    vs: Seq<RouteView>,
    rs: Seq<KernelRoute>,
    wanted: ProgramView,
    l3: Set<Seq<char>>,
    seen: Map<Seq<char>, u64>,
    now: u64,
) -> bool {
    vs.len() == rs.len() && forall|i: int|
        0 <= i < vs.len() ==> is_route_view(#[trigger] vs[i], rs[i], wanted, l3, seen, now)
}

/// A neighbor is shown in one family's table unless it is link-local.
pub open spec fn neighbor_shown(n: KernelNeighbor, v6: bool) -> bool {
    n.ip@.contains(':') == v6 && !crate::text::begins_with(n.ip@, "fe80"@)
        && !crate::text::begins_with(n.ip@, "169.254."@)
}

/// A row of `show arp` is what the kernel neighbor says.
pub open spec fn is_neighbor_view(v: NeighborView, n: KernelNeighbor) -> bool {
    &&& v.ip@ == n.ip@
    &&& v.mac@ == (match n.mac {
        Some(m) => m@,
        None => Seq::<char>::empty(),
    })
    &&& v.interface@ == n.dev@
    &&& v.permanent == n.permanent
    &&& v.age_secs == n.age_secs
}

pub open spec fn insert_neighbor_view(s: Seq<NeighborView>, v: NeighborView) -> Seq<NeighborView>
    decreases s.len(),
{
    if s.len() == 0 || !opt_ip_before(crate::ip::ip_value(v.ip@), crate::ip::ip_value(s.last().ip@)) {
        s.push(v)
    } else {
        insert_neighbor_view(s.drop_last(), v).push(s.last())
    }
}

/// Rows sorted by address; rows of one address keep their order.
pub open spec fn by_address(s: Seq<NeighborView>) -> Seq<NeighborView>
    decreases s.len(),
{
    if s.len() == 0 {
        s
    } else {
        insert_neighbor_view(by_address(s.drop_last()), s.last())
    }
}

fn add_neighbor_view(views: &mut Vec<NeighborView>, view: NeighborView)
    ensures
        final(views)@ == insert_neighbor_view(old(views)@, view),
    decreases old(views)@.len(),
{
    let ghost before = views@;
    let len: usize = views.len();
    if len == 0 || !is_opt_ip_before(
        parse_ip(view.ip.as_str()),
        parse_ip(views[len - 1].ip.as_str()),
    ) {
        views.push(view);
    } else {
        match views.pop() {
            Some(last) => {
                assert(views@ =~= before.drop_last());
                add_neighbor_view(views, view);
                views.push(last);
            },
            None => {},
        }
    }
}

/// The neighbors of one family that are shown, among the first `n`.
pub open spec fn shown_neighbors(ns: Seq<KernelNeighbor>, v6: bool, n: int) -> Seq<KernelNeighbor>
    decreases n,
{
    if n <= 0 {
        Seq::empty()
    } else if neighbor_shown(ns[n - 1], v6) {
        shown_neighbors(ns, v6, n - 1).push(ns[n - 1])
    } else {
        shown_neighbors(ns, v6, n - 1)
    }
}

pub open spec fn are_neighbor_views(vs: Seq<NeighborView>, ns: Seq<KernelNeighbor>) -> bool {
    vs.len() == ns.len() && forall|i: int|
        0 <= i < vs.len() ==> is_neighbor_view(#[trigger] vs[i], ns[i])
}

proof fn lemma_insert_neighbor_sorted(s: Seq<NeighborView>, v: NeighborView)
    requires
        addresses_rise(s),
    ensures
        addresses_rise(insert_neighbor_view(s, v)),
        insert_neighbor_view(s, v).len() == s.len() + 1,
        forall|i: int|
            0 <= i <= s.len() ==> (#[trigger] insert_neighbor_view(s, v)[i]) == v || s.contains(
                insert_neighbor_view(s, v)[i],
            ),
    decreases s.len(),
{
    let r = insert_neighbor_view(s, v);
    if s.len() == 0 || !opt_ip_before(crate::ip::ip_value(v.ip@), crate::ip::ip_value(s.last().ip@)) {
        assert forall|i: int, j: int| 0 <= i < j < r.len() implies !opt_ip_before(
            crate::ip::ip_value(r[j].ip@),
            crate::ip::ip_value(r[i].ip@),
        ) by {
            if j == s.len() && i < s.len() - 1 {
                assert(!opt_ip_before(
                    crate::ip::ip_value(s[s.len() - 1].ip@),
                    crate::ip::ip_value(s[i].ip@),
                ));
            }
        }
        assert forall|i: int| 0 <= i <= s.len() implies (#[trigger] r[i]) == v || s.contains(
            r[i],
        ) by {
            if i < s.len() {
                assert(s[i] == r[i]);
            }
        }
    } else {
        let front = s.drop_last();
        assert forall|i: int, j: int| 0 <= i < j < front.len() implies !opt_ip_before(
            crate::ip::ip_value(front[j].ip@),
            crate::ip::ip_value(front[i].ip@),
        ) by {
            assert(front[i] == s[i] && front[j] == s[j]);
        }
        lemma_insert_neighbor_sorted(front, v);
        let t = insert_neighbor_view(front, v);
        assert forall|i: int| 0 <= i <= s.len() implies (#[trigger] r[i]) == v || s.contains(
            r[i],
        ) by {
            if i < s.len() {
                assert(r[i] == t[i]);
                if t[i] != v {
                    let k = choose|k: int| 0 <= k < front.len() && front[k] == t[i];
                    assert(s[k] == r[i]);
                }
            } else {
                assert(s[s.len() - 1] == r[i]);
            }
        }
        assert forall|i: int, j: int| 0 <= i < j < r.len() implies !opt_ip_before(
            crate::ip::ip_value(r[j].ip@),
            crate::ip::ip_value(r[i].ip@),
        ) by {
            if j == s.len() {
                assert(r[i] == t[i]);
                if t[i] != v {
                    let k = choose|k: int| 0 <= k < front.len() && front[k] == t[i];
                    assert(!opt_ip_before(
                        crate::ip::ip_value(s[s.len() - 1].ip@),
                        crate::ip::ip_value(s[k].ip@),
                    ));
                }
            } else {
                assert(r[i] == t[i] && r[j] == t[j]);
            }
        }
    }
}

/// No row sorts before one in front of it.
pub open spec fn addresses_rise(s: Seq<NeighborView>) -> bool {
    forall|i: int, j: int|
        0 <= i < j < s.len() ==> !opt_ip_before(
            crate::ip::ip_value((#[trigger] s[j]).ip@),
            crate::ip::ip_value((#[trigger] s[i]).ip@),
        )
}

/// The neighbor table is in the numeric order of its addresses, whatever
/// the neighbors are.
pub proof fn lemma_neighbors_sorted(s: Seq<NeighborView>)
    ensures
        addresses_rise(by_address(s)),
        by_address(s).len() == s.len(),
    decreases s.len(),
{
    if s.len() > 0 {
        lemma_neighbors_sorted(s.drop_last());
        lemma_insert_neighbor_sorted(by_address(s.drop_last()), s.last());
    }
}

// ---------------------------------------------------------------- engine

/// The RIB engine: kernel snapshots in, a wanted program and views out.
pub struct Engine {
    pub routes: Vec<KernelRoute>,
    pub neighbors: Vec<KernelNeighbor>,
    /// ASIC L3 interface names (ports/SVIs with addresses), from syncd.
    pub l3_interfaces: TextSet,
    /// When each prefix was first seen, in milliseconds.
    pub first_seen: OrdMap<String, u64>,
    /// A kernel snapshot has arrived (false on dev hosts without the Linux
    /// feed).
    pub have_kernel: bool,
}

/// One of the first `n` routes has the prefix.
pub open spec fn has_prefix(rs: Seq<KernelRoute>, n: int, prefix: Seq<char>) -> bool {
    exists|i: int| 0 <= i < n && (#[trigger] rs[i]).prefix@ == prefix
}

/// When the prefixes of a snapshot were first seen: as before where they
/// were known, now where they are new; gone prefixes are forgotten.
pub open spec fn seen_after(
    seen: Map<Seq<char>, u64>,
    rs: Seq<KernelRoute>,
    n: int,
    now: u64,
) -> Map<Seq<char>, u64> {
    Map::new(
        |p: Seq<char>| has_prefix(rs, n, p),
        |p: Seq<char>| if seen.dom().contains(p) {
            seen[p]
        } else {
            now
        },
    )
}

impl Engine {
    pub open spec fn wf(&self) -> bool {
        self.l3_interfaces.wf() && self.first_seen.wf()
    }

    /// Create the engine.
    pub fn spawn() -> (r: Engine)
        ensures
            r.wf(),
            r.routes@.len() == 0,
            r.neighbors@.len() == 0,
            r.l3_interfaces@.dom() == Set::<Seq<char>>::empty(),
            r.first_seen@ == Map::<Seq<char>, u64>::empty(),
            !r.have_kernel,
    {
        let r = Engine {
            routes: Vec::new(),
            neighbors: Vec::new(),
            l3_interfaces: OrdMap::new(),
            first_seen: OrdMap::new(),
            have_kernel: false,
        };
        assert(r.l3_interfaces@.dom() =~= Set::<Seq<char>>::empty());
        r
    }

    /// Replace the kernel snapshot (both families together). The pusher is
    /// to be told after every call.
    pub fn ingest_kernel(
        &mut self,
        routes: Vec<KernelRoute>,
        neighbors: Vec<KernelNeighbor>,
        now: u64,
    )
        requires
            old(self).wf(),
        ensures
            final(self).wf(),
            final(self).routes == routes,
            final(self).neighbors == neighbors,
            final(self).l3_interfaces == old(self).l3_interfaces,
            final(self).first_seen@ == seen_after(
                old(self).first_seen@,
                routes@,
                routes@.len() as int,
                now,
            ),
            final(self).have_kernel,
    {
        let ghost seen = self.first_seen@;
        let mut fresh: OrdMap<String, u64> = OrdMap::new();
        let mut i: usize = 0;
        assert(fresh@ =~= seen_after(seen, routes@, 0, now));
        while i < routes.len()
            invariant
                i <= routes@.len(),
                seen == self.first_seen@,
                self.first_seen.wf(),
                fresh.wf(),
                fresh@ == seen_after(seen, routes@, i as int, now),
            decreases routes@.len() - i,
        {
            let prefix = &routes[i].prefix;
            let ghost before = fresh@;
            let since: u64 = match self.first_seen.get(prefix) {
                Some(t) => *t,
                None => now,
            };
            fresh.insert(prefix.clone(), since);
            proof {
                assert forall|p: Seq<char>|
                    has_prefix(routes@, i + 1, p) <==> (has_prefix(routes@, i as int, p)
                        || routes@[i as int].prefix@ == p) by {
                    if has_prefix(routes@, i as int, p) {
                        let j = choose|j: int|
                            0 <= j < i && (#[trigger] routes@[j]).prefix@ == p;
                        assert(0 <= j < i + 1 && routes@[j].prefix@ == p);
                    }
                    if routes@[i as int].prefix@ == p {
                        assert(0 <= i < i + 1 && routes@[i as int].prefix@ == p);
                    }
                }
                assert(fresh@ =~= seen_after(seen, routes@, i + 1, now));
            }
            i = i + 1;
        }
        self.first_seen = fresh;
        self.routes = routes;
        self.neighbors = neighbors;
        self.have_kernel = true;
    }

    /// Which interfaces map to ASIC L3 interfaces (from syncd's
    /// interface table). True where that changed and the pusher is to be
    /// told.
    pub fn set_l3_interfaces(&mut self, interfaces: TextSet) -> (changed: bool)
        requires
            old(self).wf(),
            interfaces.wf(),
        ensures
            final(self).wf(),
            changed == (old(self).l3_interfaces@.dom() != interfaces@.dom()),
            final(self).l3_interfaces@.dom() == interfaces@.dom(),
            final(self).routes == old(self).routes,
            final(self).neighbors == old(self).neighbors,
            final(self).first_seen == old(self).first_seen,
            final(self).have_kernel == old(self).have_kernel,
    {
        if self.l3_interfaces.same_keys(&interfaces) {
            return false;
        }
        self.l3_interfaces = interfaces;
        true
    }

    /// A kernel snapshot has arrived.
    pub fn have_kernel(&self) -> (r: bool)
        ensures
            r == self.have_kernel,
    {
        self.have_kernel
    }

    /// The FIB program the kernel snapshot wants.
    pub fn wanted(&self) -> (r: Program)
        requires
            self.wf(),
        ensures
            r.wf(),
            r@ == derived(self.routes@, self.neighbors@, self.l3_interfaces@.dom()),
    {
        derive_program(&self.routes, &self.neighbors, &self.l3_interfaces)
    }

    /// The RIB view for `show ip route` / the web console, one family,
    /// sorted by prefix.
    pub fn snapshot(&self, v6: bool, now: u64) -> (r: Vec<RouteView>)
        requires
            self.wf(),
        ensures
            exists|rows: Seq<RouteView>| #[trigger]
                are_route_views(
                    rows,
                    shown_routes(self.routes@, v6, self.routes@.len() as int),
                    derived(self.routes@, self.neighbors@, self.l3_interfaces@.dom()),
                    self.l3_interfaces@.dom(),
                    self.first_seen@,
                    now,
                ) && r@ == by_prefix(rows),
    {
        let wanted = self.wanted();
        let ghost names = self.l3_interfaces@.dom();
        let ghost program = derived(self.routes@, self.neighbors@, names);
        let ghost mut rows: Seq<RouteView> = Seq::empty();
        let mut views: Vec<RouteView> = Vec::new();
        let mut i: usize = 0;
        while i < self.routes.len()
            invariant
                self.wf(),
                wanted.wf(),
                wanted@ == program,
                names == self.l3_interfaces@.dom(),
                i <= self.routes@.len(),
                are_route_views(
                    rows,
                    shown_routes(self.routes@, v6, i as int),
                    program,
                    names,
                    self.first_seen@,
                    now,
                ),
                views@ == by_prefix(rows),
            decreases self.routes@.len() - i,
        {
            let route = &self.routes[i];
            if has_char(route.prefix.as_str(), ':') == v6 {
                match route_view(route, &wanted, &self.l3_interfaces, &self.first_seen, now) {
                    Some(view) => {
                        proof {
                            assert(rows.push(view).drop_last() =~= rows);
                            rows = rows.push(view);
                        }
                        add_view(&mut views, view);
                    },
                    None => {},
                }
            }
            i = i + 1;
        }
        views
    }

    /// The neighbor view for `show arp` / `show ipv6 neighbors`, one
    /// family, sorted by address.
    pub fn neighbors(&self, v6: bool) -> (r: Vec<NeighborView>)
        ensures
            exists|rows: Seq<NeighborView>| #[trigger]
                are_neighbor_views(
                    rows,
                    shown_neighbors(self.neighbors@, v6, self.neighbors@.len() as int),
                ) && r@ == by_address(rows),
    {
        let ghost mut rows: Seq<NeighborView> = Seq::empty();
        let mut views: Vec<NeighborView> = Vec::new();
        let mut i: usize = 0;
        while i < self.neighbors.len()
            invariant
                i <= self.neighbors@.len(),
                are_neighbor_views(rows, shown_neighbors(self.neighbors@, v6, i as int)),
                views@ == by_address(rows),
            decreases self.neighbors@.len() - i,
        {
            let n = &self.neighbors[i];
            let ip = n.ip.as_str();
            if has_char(ip, ':') == v6 && !starts_with(ip, "fe80") && !starts_with(
                ip,
                "169.254.",
            ) {
                let view = NeighborView {
                    ip: n.ip.clone(),
                    mac: match &n.mac {
                        Some(m) => m.clone(),
                        None => String::new(),
                    },
                    interface: n.dev.clone(),
                    permanent: n.permanent,
                    age_secs: n.age_secs,
                };
                proof {
                    assert(rows.push(view).drop_last() =~= rows);
                    rows = rows.push(view);
                }
                add_neighbor_view(&mut views, view);
            }
            i = i + 1;
        }
        views
    }
}

// ---------------------------------------------------------------- paging

/// The index of the first row of a prefix.
pub open spec fn row_of(views: Seq<RouteView>, token: Seq<char>, from: int) -> Option<int>
    decreases views.len() - from,
{
    if from < 0 || from >= views.len() {
        None
    } else if views[from].prefix@ == token {
        Some(from)
    } else {
        row_of(views, token, from + 1)
    }
}

/// The rows behind a page token; all of them where the token is empty or
/// names no row.
pub open spec fn after_token(views: Seq<RouteView>, token: Seq<char>) -> Seq<RouteView> {
    match row_of(views, token, 0) {
        Some(i) => if token.len() > 0 {
            views.skip(i + 1)
        } else {
            views
        },
        None => views,
    }
}

/// One page of the routing table: the rows behind the token, at most
/// `page_size` of them (0 = all), and the token of the next page, which is
/// empty on the last one.
pub fn page_routes(views: Vec<RouteView>, token: &str, page_size: u32) -> (r: (
    Vec<RouteView>,
    String,
))
    ensures
        ({
            let rest = after_token(views@, token@);
            if page_size > 0 && rest.len() > page_size {
                r.0@ == rest.take(page_size as int) && r.1@ == rest[page_size - 1].prefix@
            } else {
                r.0@ == rest && r.1@.len() == 0
            }
        }),
{
    let mut views = views;
    let ghost all = views@;
    if !token.is_empty() {
        let mut i: usize = 0;
        let mut found: Option<usize> = None;
        while i < views.len() && found.is_none()
            invariant
                views@ == all,
                i <= all.len(),
                match found {
                    Some(k) => k < all.len() && row_of(all, token@, 0) == Some(k as int),
                    None => row_of(all, token@, 0) == row_of(all, token@, i as int),
                },
            decreases all.len() - i + (if found.is_none() { 1int } else { 0int }),
        {
            if same_text(views[i].prefix.as_str(), token) {
                found = Some(i);
            } else {
                i = i + 1;
            }
        }
        match found {
            Some(k) => {
                let rest = views.split_off(k + 1);
                views = rest;
                assert(views@ =~= all.skip(k + 1));
            },
            None => {},
        }
    }
    let ghost rest = after_token(all, token@);
    assert(views@ =~= rest);
    let size: usize = page_size as usize;
    if size > 0 && views.len() > size {
        views.truncate(size);
        assert(views@ =~= rest.take(page_size as int));
        let next = views[size - 1].prefix.clone();
        return (views, next);
    }
    (views, String::new())
}

/// The arguments that `ip` flushes dynamic kernel neighbors with: those of one
/// address, or all (statics are NUD permanent and survive).
pub fn flush_args(ip: &str) -> (r: Vec<String>)
    ensures
        ip@.len() > 0 ==> r.deep_view() == seq!["neigh"@, "flush"@, "to"@, ip@],
        ip@.len() == 0 ==> r.deep_view() == seq!["neigh"@, "flush"@, "all"@],
{
    let mut r: Vec<String> = Vec::new();
    r.push("neigh".to_owned());
    r.push("flush".to_owned());
    if ip.is_empty() {
        r.push("all".to_owned());
        assert(r.deep_view() =~= seq!["neigh"@, "flush"@, "all"@]);
    } else {
        r.push("to".to_owned());
        r.push(ip.to_owned());
        assert(r.deep_view() =~= seq!["neigh"@, "flush"@, "to"@, ip@]);
    }
    r
}

} // verus!
