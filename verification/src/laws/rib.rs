//! Laws of the forwarding program and of the routing views.

use vstd::prelude::*;

use crate::ip::IpAddr;
use crate::json::Json;
use crate::rib::{
    KernelHop, KernelNeighbor, KernelRoute, NeighborView, OpView, Program, RouteProgram, RouteView,
    WantedRoute,
};

verus! {

proof fn lemma_neighbors_prefix(
    a: Seq<KernelNeighbor>,
    b: Seq<KernelNeighbor>,
    l3: Set<Seq<char>>,
    n: int,
)
    requires
        n <= a.len(),
        n <= b.len(),
        forall|i: int| 0 <= i < n ==> a[i] == b[i],
    ensures
        crate::rib::wanted_neighbors(a, l3, n) == crate::rib::wanted_neighbors(b, l3, n),
    decreases n,
{
    if n > 0 {
        lemma_neighbors_prefix(a, b, l3, n - 1);
    }
}

/// One kernel neighbor more: it is programmed with its MAC where it has one,
/// stands on an ASIC interface and is permanent or reachable, and then
/// replaces what stood under its address; otherwise nothing changes.
pub proof fn lemma_neighbor_added(
    rs: Seq<KernelRoute>,
    ns: Seq<KernelNeighbor>,
    n: KernelNeighbor,
    l3: Set<Seq<char>>,
)
    ensures
        ({
            let had = crate::rib::derived(rs, ns, l3).neighbors;
            let has = crate::rib::derived(rs, ns.push(n), l3).neighbors;
            &&& n.permanent && n.mac is Some && l3.contains(n.dev@) ==> has == had.insert(
                (n.dev@, n.ip@),
                n.mac->0@,
            )
            &&& n.reachable && n.mac is Some && l3.contains(n.dev@) ==> has == had.insert(
                (n.dev@, n.ip@),
                n.mac->0@,
            )
            &&& n.mac is None ==> has == had
            &&& !l3.contains(n.dev@) ==> has == had
            &&& !n.permanent && !n.reachable ==> has == had
        }),
{
    lemma_neighbors_prefix(ns.push(n), ns, l3, ns.len() as int);
}

/// Every confirmed neighbor is in the program: one that has a MAC, stands on
/// an ASIC interface and is permanent or reachable. The last one of an address
/// gives the MAC.
pub proof fn lemma_confirmed_neighbors_are_programmed(
    rs: Seq<KernelRoute>,
    ns: Seq<KernelNeighbor>,
    l3: Set<Seq<char>>,
    i: int,
)
    requires
        0 <= i < ns.len(),
        ns[i].mac is Some,
        l3.contains(ns[i].dev@),
        ns[i].permanent || ns[i].reachable,
    ensures
        ({
            let p = crate::rib::derived(rs, ns, l3);
            let k = (ns[i].dev@, ns[i].ip@);
            &&& p.neighbors.dom().contains(k)
            &&& (forall|j: int|
                i < j < ns.len() && (#[trigger] ns[j]).dev@ == ns[i].dev@ && ns[j].ip@ == ns[i].ip@
                    ==> ns[j].mac is None || !(ns[j].permanent || ns[j].reachable))
                ==> p.neighbors[k] == ns[i].mac->0@
        }),
{
    lemma_confirmed_stays(ns, l3, i, ns.len() as int);
}

proof fn lemma_confirmed_stays(ns: Seq<KernelNeighbor>, l3: Set<Seq<char>>, i: int, n: int)
    requires
        0 <= i < n <= ns.len(),
        ns[i].mac is Some,
        l3.contains(ns[i].dev@),
        ns[i].permanent || ns[i].reachable,
    ensures
        ({
            let m = crate::rib::wanted_neighbors(ns, l3, n);
            let k = (ns[i].dev@, ns[i].ip@);
            &&& m.dom().contains(k)
            &&& (forall|j: int|
                i < j < n && (#[trigger] ns[j]).dev@ == ns[i].dev@ && ns[j].ip@ == ns[i].ip@
                    ==> ns[j].mac is None || !(ns[j].permanent || ns[j].reachable)) ==> m[k]
                == ns[i].mac->0@
        }),
    decreases n,
{
    if n - 1 > i {
        lemma_confirmed_stays(ns, l3, i, n - 1);
        let last = ns[n - 1];
        let k = (ns[i].dev@, ns[i].ip@);
        if (last.dev@, last.ip@) == k {
            assert(last.dev@ == k.0 && last.ip@ == k.1);
        }
    }
}

/// Nothing else is programmed: what is in the program is a kernel neighbor
/// with that MAC, on an ASIC interface, permanent or reachable.
pub proof fn lemma_programmed_neighbors_are_confirmed(
    rs: Seq<KernelRoute>,
    ns: Seq<KernelNeighbor>,
    l3: Set<Seq<char>>,
    k: (Seq<char>, Seq<char>),
)
    requires
        crate::rib::derived(rs, ns, l3).neighbors.dom().contains(k),
    ensures
        exists|i: int|
            0 <= i < ns.len() && (#[trigger] ns[i]).dev@ == k.0 && ns[i].ip@ == k.1 && l3.contains(k.0)
                && (ns[i].permanent || ns[i].reachable) && ns[i].mac is Some && ns[i].mac->0@
                == crate::rib::derived(rs, ns, l3).neighbors[k],
{
    lemma_programmed_from(ns, l3, ns.len() as int, k);
}

proof fn lemma_programmed_from(
    ns: Seq<KernelNeighbor>,
    l3: Set<Seq<char>>,
    n: int,
    k: (Seq<char>, Seq<char>),
)
    requires
        0 <= n <= ns.len(),
        crate::rib::wanted_neighbors(ns, l3, n).dom().contains(k),
    ensures
        exists|i: int|
            0 <= i < n && (#[trigger] ns[i]).dev@ == k.0 && ns[i].ip@ == k.1 && l3.contains(k.0) && (
            ns[i].permanent || ns[i].reachable) && ns[i].mac is Some && ns[i].mac->0@
                == crate::rib::wanted_neighbors(ns, l3, n)[k],
    decreases n,
{
    if n > 0 {
        let last = ns[n - 1];
        let front = crate::rib::wanted_neighbors(ns, l3, n - 1);
        let all = crate::rib::wanted_neighbors(ns, l3, n);
        if (last.dev@, last.ip@) == k && all != front {
            assert(last.dev@ == k.0);
        } else if front.dom().contains(k) && all[k] == front[k] {
            lemma_programmed_from(ns, l3, n - 1, k);
            let i = choose|i: int|
                0 <= i < n - 1 && (#[trigger] ns[i]).dev@ == k.0 && ns[i].ip@ == k.1 && l3.contains(
                    k.0,
                ) && (ns[i].permanent || ns[i].reachable) && ns[i].mac is Some && ns[i].mac->0@
                    == front[k];
            assert(ns[i].dev@ == k.0);
        } else {
            assert(last.dev@ == k.0);
        }
    }
}

/// Does a hop go through a gateway, out an ASIC interface?
pub open spec fn leaves(h: KernelHop, l3: Set<Seq<char>>) -> bool {
    h.via is Some && h.dev is Some && l3.contains(h.dev->0@)
}

/// The hops of a route that go through a programmed neighbor, in their order.
pub open spec fn through(
    hops: Seq<KernelHop>,
    l3: Set<Seq<char>>,
    known: Map<(Seq<char>, Seq<char>), Seq<char>>,
) -> Seq<(Seq<char>, Seq<char>)> {
    hops.filter(|h: KernelHop| leaves(h, l3) && known.dom().contains((h.dev->0@, h.via->0@))).map_values(
        |h: KernelHop| (h.dev->0@, h.via->0@),
    )
}

proof fn lemma_through(
    hops: Seq<KernelHop>,
    l3: Set<Seq<char>>,
    known: Map<(Seq<char>, Seq<char>), Seq<char>>,
    n: int,
)
    requires
        0 <= n <= hops.len(),
    ensures
        crate::rib::resolved_hops(hops, l3, known, n) == through(hops.take(n), l3, known),
    decreases n,
{
    reveal(Seq::filter);
    let f = |h: KernelHop| leaves(h, l3) && known.dom().contains((h.dev->0@, h.via->0@));
    let g = |h: KernelHop| (h.dev->0@, h.via->0@);
    if n > 0 {
        lemma_through(hops, l3, known, n - 1);
        assert(hops.take(n).drop_last() =~= hops.take(n - 1));
        let front = hops.take(n - 1).filter(f);
        assert(front.push(hops[n - 1]).map_values(g) =~= front.map_values(g).push(g(hops[n - 1])));
    } else {
        assert(hops.take(0).filter(f) =~= Seq::empty());
        assert(hops.take(0).filter(f).map_values(g) =~= Seq::empty());
    }
}

proof fn lemma_routes_prefix(
    a: Seq<KernelRoute>,
    b: Seq<KernelRoute>,
    l3: Set<Seq<char>>,
    known: Map<(Seq<char>, Seq<char>), Seq<char>>,
    n: int,
)
    requires
        n <= a.len(),
        n <= b.len(),
        forall|i: int| 0 <= i < n ==> a[i] == b[i],
    ensures
        crate::rib::wanted_routes(a, l3, known, n) == crate::rib::wanted_routes(b, l3, known, n),
    decreases n,
{
    if n > 0 {
        lemma_routes_prefix(a, b, l3, known, n - 1);
    }
}

/// An address that is neither link-local nor multicast: outside 169.254.0.0/16
/// and 224.0.0.0/4, outside fe80::/10 and ff00::/8.
pub open spec fn forwardable(a: IpAddr) -> bool {
    match a {
        IpAddr::V4(x) => !(0xa9fe_0000 <= x.bits <= 0xa9fe_ffff) && !(0xe000_0000 <= x.bits
            <= 0xefff_ffff),
        IpAddr::V6(x) => !(0xfe80_0000_0000_0000 <= x.hi <= 0xfebf_ffff_ffff_ffff) && x.hi
            < 0xff00_0000_0000_0000,
    }
}

/// One kernel route more, whose prefix is an address and a length. A link-local
/// or multicast one changes nothing. A null route drops. A route with a hop
/// through a gateway out an ASIC interface has the hops whose neighbor is
/// programmed, and punts exactly while there is none. Any other route changes
/// nothing.
pub proof fn lemma_route_added(
    rs: Seq<KernelRoute>,
    r: KernelRoute,
    ns: Seq<KernelNeighbor>,
    l3: Set<Seq<char>>,
    address: Seq<char>,
    length: Seq<char>,
    a: IpAddr,
)
    requires
        crate::text::cut_text(r.prefix@, '/') == Some((address, length)),
        crate::ip::ip_value(address) == Some(a),
    ensures
        ({
            let known = crate::rib::derived(rs, ns, l3).neighbors;
            let had = crate::rib::derived(rs, ns, l3).routes;
            let has = crate::rib::derived(rs.push(r), ns, l3).routes;
            let hops = through(r.hops@, l3, known);
            let out = exists|i: int| 0 <= i < r.hops@.len() && leaves(#[trigger] r.hops@[i], l3);
            &&& !forwardable(a) ==> has == had
            &&& forwardable(a) && r.blackhole ==> has == had.insert(
                r.prefix@,
                (RouteProgram { cpu: false, drop: true, hops: Seq::empty() }),
            )
            &&& forwardable(a) && !r.blackhole && out ==> has == had.insert(
                r.prefix@,
                (RouteProgram { cpu: hops == Seq::<(Seq<char>, Seq<char>)>::empty(), drop: false, hops }),
            )
            &&& !r.blackhole && !out ==> has == had
        }),
{
    let known = crate::rib::derived(rs, ns, l3).neighbors;
    lemma_routes_prefix(rs.push(r), rs, l3, known, rs.len() as int);
    lemma_through(r.hops@, l3, known, r.hops@.len() as int);
    assert(r.hops@.take(r.hops@.len() as int) =~= r.hops@);
    let hops = through(r.hops@, l3, known);
    assert(hops.len() == 0 <==> hops =~= Seq::<(Seq<char>, Seq<char>)>::empty());
    if exists|i: int| 0 <= i < r.hops@.len() && leaves(#[trigger] r.hops@[i], l3) {
        let i = choose|i: int| 0 <= i < r.hops@.len() && leaves(#[trigger] r.hops@[i], l3);
        assert(crate::rib::asic_hop(r.hops@[i], l3));
    }
    if crate::rib::has_asic_hop(r.hops@, l3) {
        let i = choose|i: int|
            0 <= i < r.hops@.len() && crate::rib::asic_hop(#[trigger] r.hops@[i], l3);
        assert(leaves(r.hops@[i], l3));
    }
}

/// What is no address with a length is never programmed.
pub proof fn lemma_no_prefix_no_route(
    rs: Seq<KernelRoute>,
    r: KernelRoute,
    ns: Seq<KernelNeighbor>,
    l3: Set<Seq<char>>,
)
    requires
        crate::text::cut_text(r.prefix@, '/') matches Some(parts) ==> crate::ip::ip_value(parts.0)
            is None,
    ensures
        crate::rib::derived(rs.push(r), ns, l3).routes == crate::rib::derived(rs, ns, l3).routes,
{
    let known = crate::rib::derived(rs, ns, l3).neighbors;
    lemma_routes_prefix(rs.push(r), rs, l3, known, rs.len() as int);
}

/// Without routes and neighbors there is nothing to program.
pub proof fn lemma_nothing_from_nothing(l3: Set<Seq<char>>)
    ensures
        crate::rib::derived(Seq::empty(), Seq::empty(), l3).routes.dom() == Set::<Seq<char>>::empty(),
        crate::rib::derived(Seq::empty(), Seq::empty(), l3).neighbors.dom() == Set::<
            (Seq<char>, Seq<char>),
        >::empty(),
{
}

/// A route whose hop has a confirmed neighbor forwards in hardware: the hop is
/// among those of the program, which does not punt.
pub proof fn lemma_confirmed_hops_forward(
    rs: Seq<KernelRoute>,
    r: KernelRoute,
    ns: Seq<KernelNeighbor>,
    l3: Set<Seq<char>>,
    address: Seq<char>,
    length: Seq<char>,
    a: IpAddr,
    h: int,
    n: int,
)
    requires
        crate::text::cut_text(r.prefix@, '/') == Some((address, length)),
        crate::ip::ip_value(address) == Some(a),
        forwardable(a),
        !r.blackhole,
        0 <= h < r.hops@.len(),
        r.hops@[h].via is Some,
        r.hops@[h].dev is Some,
        0 <= n < ns.len(),
        ns[n].mac is Some,
        ns[n].permanent || ns[n].reachable,
        ns[n].dev@ == r.hops@[h].dev->0@,
        ns[n].ip@ == r.hops@[h].via->0@,
        l3.contains(ns[n].dev@),
    ensures
        ({
            let p = crate::rib::derived(rs.push(r), ns, l3);
            &&& p.routes.dom().contains(r.prefix@)
            &&& !p.routes[r.prefix@].cpu
            &&& !p.routes[r.prefix@].drop
            &&& p.routes[r.prefix@].hops.contains((r.hops@[h].dev->0@, r.hops@[h].via->0@))
        }),
{
    broadcast use vstd::seq_lib::group_filter_ensures;

    let known = crate::rib::derived(rs, ns, l3).neighbors;
    lemma_confirmed_neighbors_are_programmed(rs, ns, l3, n);
    lemma_route_added(rs, r, ns, l3, address, length, a);
    assert(leaves(r.hops@[h], l3));
    let f = |h: KernelHop| leaves(h, l3) && known.dom().contains((h.dev->0@, h.via->0@));
    let g = |h: KernelHop| (h.dev->0@, h.via->0@);
    r.hops@.filter_lemma(f);
    let kept = r.hops@.filter(f);
    assert(kept.contains(r.hops@[h]));
    let k = choose|k: int| 0 <= k < kept.len() && kept[k] == r.hops@[h];
    assert(kept.map_values(g)[k] == g(r.hops@[h]));
}

/// What `show ip route` says of a route's origin: one without a gateway is
/// connected, at no distance; a static one has its configured distance in the
/// metric, and 1 where the kernel shows its own default; OSPF stands at 110
/// and BGP at 200, with their metrics; anything else is a kernel route.
pub proof fn lemma_origins_are_shown(r: KernelRoute)
    ensures
        ({
            let gateways = exists|i: int|
                0 <= i < r.hops@.len() && (#[trigger] r.hops@[i]).via is Some;
            let told = crate::rib::shown_protocol(r);
            &&& !r.blackhole && !gateways ==> told == ("connected"@, 0u32, 0u32)
            &&& r.blackhole || gateways ==> {
                &&& r.protocol@ == "ospf"@ ==> told == ("ospf"@, 110u32, r.metric)
                &&& r.protocol@ == "bgp"@ ==> told == ("bgp"@, 200u32, r.metric)
                &&& r.protocol@ == "static"@ || r.protocol@ == "boot"@ ==> told.0 == "static"@
                    && told.2 == 0 && (if r.metric == 0 {
                    told.1 == 1
                } else if r.metric == 1024 && r.prefix@.contains(':') {
                    told.1 == 1
                } else {
                    told.1 == r.metric
                })
                &&& r.protocol@ != "ospf"@ && r.protocol@ != "bgp"@ && r.protocol@ != "static"@
                    && r.protocol@ != "boot"@ ==> told == ("kernel"@, 0u32, r.metric)
            }
        }),
{
    reveal_strlit("static");
    reveal_strlit("boot");
    reveal_strlit("ospf");
    reveal_strlit("bgp");
    assert("static"@.len() == 6 && "boot"@.len() == 4 && "ospf"@.len() == 4 && "bgp"@.len() == 3);
    assert("boot"@[0] == 'b' && "ospf"@[0] == 'o');
}

/// What `show ip route` says of where a route stands: a connected one on an
/// ASIC interface is connected, on another device it is the kernel's; a null
/// route drops; one with a gateway is programmed, punts, or is the kernel's,
/// as the program says.
pub proof fn lemma_places_are_shown(
    r: KernelRoute,
    wanted: Map<Seq<char>, RouteProgram>,
    l3: Set<Seq<char>>,
)
    ensures
        ({
            let gateways = exists|i: int|
                0 <= i < r.hops@.len() && (#[trigger] r.hops@[i]).via is Some;
            let told = crate::rib::shown_fib(r, wanted, l3);
            let dev = r.hops@[0].dev;
            &&& r.blackhole ==> told == "drop"@
            &&& !r.blackhole && !gateways ==> if r.hops@.len() > 0 && dev is Some && !l3.contains(
                dev->0@,
            ) {
                told == "kernel"@
            } else {
                told == "connected"@
            }
            &&& !r.blackhole && gateways ==> if !wanted.dom().contains(r.prefix@) {
                told == "kernel"@
            } else if wanted[r.prefix@].cpu {
                told == "punt"@
            } else {
                told == "programmed"@
            }
            &&& r.blackhole || gateways ==> crate::rib::connected_interface(r) is None
            &&& !r.blackhole && !gateways && r.hops@.len() > 0 ==> crate::rib::connected_interface(r)
                == crate::text::option_text(dev)
        }),
{
}

/// The age of a route counts from the first snapshot that held its prefix: a
/// prefix that stays keeps its moment, a new one starts now, and one that is
/// gone starts over when it comes back.
pub proof fn lemma_ages_go_on(
    seen: Map<Seq<char>, u64>,
    rs: Seq<KernelRoute>,
    now: u64,
    i: int,
    gone: Seq<char>,
)
    requires
        0 <= i < rs.len(),
        forall|j: int| 0 <= j < rs.len() ==> (#[trigger] rs[j]).prefix@ != gone,
    ensures
        ({
            let after = crate::rib::seen_after(seen, rs, rs.len() as int, now);
            let p = rs[i].prefix@;
            &&& after.dom().contains(p)
            &&& seen.dom().contains(p) ==> after[p] == seen[p]
            &&& !seen.dom().contains(p) ==> after[p] == now
            &&& !after.dom().contains(gone)
            &&& forall|later: u64|
                now <= later && !seen.dom().contains(p) ==> #[trigger] crate::rib::uptime(
                    after,
                    p,
                    later,
                ) == (later - now) / 1000
        }),
{
}

/// A neighbor is shown as the kernel has it, in the table of its family,
/// unless it is link-local.
pub proof fn lemma_neighbors_are_shown(n: KernelNeighbor, v: crate::rib::NeighborView, v6: bool)
    ensures
        crate::rib::neighbor_shown(n, v6) ==> v6 == n.ip@.contains(':'),
        crate::text::begins_with(n.ip@, "fe80"@) || crate::text::begins_with(n.ip@, "169.254."@)
            ==> !crate::rib::neighbor_shown(n, v6),
        v6 == n.ip@.contains(':') && !crate::text::begins_with(n.ip@, "fe80"@)
            && !crate::text::begins_with(n.ip@, "169.254."@) ==> crate::rib::neighbor_shown(n, v6),
        crate::rib::is_neighbor_view(v, n) ==> {
            &&& v.ip@ == n.ip@
            &&& v.interface@ == n.dev@
            &&& v.permanent == n.permanent
            &&& v.age_secs == n.age_secs
            &&& n.mac is Some ==> v.mac@ == n.mac->0@
            &&& n.mac is None ==> v.mac@.len() == 0
        },
{
}

/// The hops of `show ip route` are the gateways of the route, in their order,
/// and one is resolved exactly where its neighbor is programmed.
pub proof fn lemma_hops_are_shown(
    hops: Seq<KernelHop>,
    h: KernelHop,
    known: Map<(Seq<char>, Seq<char>), Seq<char>>,
)
    ensures
        ({
            let had = crate::rib::shown_hops(hops, known, hops.len() as int);
            let has = crate::rib::shown_hops(hops.push(h), known, hops.len() as int + 1);
            &&& h.via is None ==> has == had
            &&& h.via is Some ==> has.len() == had.len() + 1 && has.drop_last() == had
                && has.last().via == h.via->0@
            &&& h.via is Some && h.dev is Some ==> has.last().interface == h.dev->0@
                && has.last().resolved == known.dom().contains((h.dev->0@, h.via->0@))
            &&& h.via is Some && h.dev is None ==> has.last().interface.len() == 0
        }),
{
    lemma_hops_prefix(hops.push(h), hops, known, hops.len() as int);
    let had = crate::rib::shown_hops(hops, known, hops.len() as int);
    let has = crate::rib::shown_hops(hops.push(h), known, hops.len() as int + 1);
    if h.via is Some {
        assert(has.drop_last() =~= had);
    }
}

proof fn lemma_hops_prefix(
    a: Seq<KernelHop>,
    b: Seq<KernelHop>,
    known: Map<(Seq<char>, Seq<char>), Seq<char>>,
    n: int,
)
    requires
        n <= a.len(),
        n <= b.len(),
        forall|i: int| 0 <= i < n ==> a[i] == b[i],
    ensures
        crate::rib::shown_hops(a, known, n) == crate::rib::shown_hops(b, known, n),
    decreases n,
{
    if n > 0 {
        lemma_hops_prefix(a, b, known, n - 1);
    }
}

// ------------------------------------------------------------- reading

/// A route of the kernel is read by its fields: its prefix in full, its
/// protocol, its metric, and its hops, one of its own where it lists none and
/// is no blackhole.
pub proof fn lemma_routes_are_read(r: KernelRoute, v: Json, v6: bool, i: int)
    requires
        crate::rib::is_route(r, v, v6),
    ensures
        crate::rib::text_at(v, "dst"@) matches Some(dst) && r.prefix@
            == crate::rib::canonical_text(dst, v6),
        r.protocol@ == crate::json::text_member(v, "protocol"@),
        crate::json::count_member(v, "metric"@) <= u32::MAX ==> r.metric
            == crate::json::count_member(v, "metric"@),
        r.blackhole <==> crate::json::text_member(v, "type"@) == "blackhole"@,
        crate::json::member(v, "nexthops"@) matches Some(Json::List(list)) ==> {
            &&& r.hops@.len() == list@.len()
            &&& 0 <= i < list@.len() ==> crate::text::option_text(r.hops@[i].via)
                == crate::rib::text_at(list@[i], "gateway"@) && crate::text::option_text(
                r.hops@[i].dev,
            ) == crate::rib::text_at(list@[i], "dev"@)
        },
        !(crate::json::member(v, "nexthops"@) is Some && crate::json::member(v, "nexthops"@)->0
            is List) ==> {
            &&& r.blackhole ==> r.hops@.len() == 0
            &&& !r.blackhole ==> r.hops@.len() == 1 && crate::text::option_text(r.hops@[0].via)
                == crate::rib::text_at(v, "gateway"@) && crate::text::option_text(r.hops@[0].dev)
                == crate::rib::text_at(v, "dev"@)
        },
{
    reveal_strlit("blackhole");
    assert("blackhole"@.len() == 9);
}

/// The prefix of a route in full: a default route is the family's, one with a
/// length is as it stands, and a lone address is one host.
pub proof fn lemma_prefixes_are_full(dst: Seq<char>, v6: bool)
    ensures
        crate::rib::canonical_text("default"@, true) == "::/0"@,
        crate::rib::canonical_text("default"@, false) == "0.0.0.0/0"@,
        dst != "default"@ && dst.contains('/') ==> crate::rib::canonical_text(dst, v6) == dst,
        dst != "default"@ && !dst.contains('/') && dst.contains(':')
            ==> crate::rib::canonical_text(dst, v6) == dst + "/128"@,
        dst != "default"@ && !dst.contains('/') && !dst.contains(':')
            ==> crate::rib::canonical_text(dst, v6) == dst + "/32"@,
{
}

/// Does a neighbor entry list a state?
pub open spec fn in_state(v: Json, state: Seq<char>) -> bool {
    crate::json::member(v, "state"@) matches Some(Json::List(states)) && exists|i: int|
        0 <= i < states@.len() && (#[trigger] states@[i] matches Json::Text(t) && t@ == state)
}

proof fn lemma_states(v: Json, state: Seq<char>)
    ensures
        crate::rib::has_state(v, state) == in_state(v, state),
{
    if let Some(Json::List(states)) = crate::json::member(v, "state"@) {
        if crate::rib::lists_text(states@, state) {
            let i = choose|i: int|
                0 <= i < states@.len() && crate::rib::is_text(#[trigger] states@[i], state);
            assert(states@[i] matches Json::Text(t) && t@ == state);
        }
        if in_state(v, state) {
            let i = choose|i: int|
                0 <= i < states@.len() && (#[trigger] states@[i] matches Json::Text(t) && t@
                    == state);
            assert(crate::rib::is_text(states@[i], state));
        }
    }
}

/// A neighbor of the kernel is read by its fields and its states: fixed where
/// it is permanent or needs no ARP, stale where it is stale, delayed or probed.
pub proof fn lemma_neighbors_are_read(n: KernelNeighbor, v: Json)
    requires
        crate::rib::is_neighbor(n, v),
    ensures
        crate::rib::text_at(v, "dst"@) == Some(n.ip@),
        crate::rib::text_at(v, "dev"@) == Some(n.dev@),
        crate::text::option_text(n.mac) == crate::rib::text_at(v, "lladdr"@),
        n.permanent <==> in_state(v, "PERMANENT"@) || in_state(v, "NOARP"@),
        n.reachable <==> in_state(v, "REACHABLE"@),
        n.stale <==> in_state(v, "STALE"@) || in_state(v, "DELAY"@) || in_state(v, "PROBE"@),
        n.age_secs == crate::json::number_member(v, "confirmed"@),
{
    lemma_states(v, "PERMANENT"@);
    lemma_states(v, "NOARP"@);
    lemma_states(v, "REACHABLE"@);
    lemma_states(v, "STALE"@);
    lemma_states(v, "DELAY"@);
    lemma_states(v, "PROBE"@);
}

/// Of a dump, the routes are the entries with a destination, the neighbors
/// those with a device too, in order.
pub proof fn lemma_dumps_are_walked(items: Seq<Json>, n: int)
    requires
        0 < n <= items.len(),
    ensures
        ({
            let item = items[n - 1];
            let there = crate::rib::text_at(item, "dst"@) is Some;
            let placed = crate::rib::text_at(item, "dev"@) is Some;
            &&& crate::rib::with_dst(items, 0).len() == 0
            &&& crate::rib::with_dst_dev(items, 0).len() == 0
            &&& crate::rib::with_dst(items, n) == (if there {
                crate::rib::with_dst(items, n - 1).push(item)
            } else {
                crate::rib::with_dst(items, n - 1)
            })
            &&& crate::rib::with_dst_dev(items, n) == (if there && placed {
                crate::rib::with_dst_dev(items, n - 1).push(item)
            } else {
                crate::rib::with_dst_dev(items, n - 1)
            })
        }),
{
}

// -------------------------------------------------------- programming

proof fn lemma_ensured_neighbors(
    wanted: Seq<((String, String), String)>,
    current: Map<(Seq<char>, Seq<char>), Seq<char>>,
    n: int,
    op: OpView,
)
    requires
        0 <= n <= wanted.len(),
        crate::rib::ensure_neighbors(wanted, current, n).contains(op),
    ensures
        op matches OpView::EnsureNeighbor { interface, ip, mac } && !(current.dom().contains(
            (interface, ip),
        ) && current[(interface, ip)] == mac) && exists|i: int|
            0 <= i < n && (#[trigger] wanted[i]).0@ == (interface, ip) && wanted[i].1@ == mac,
    decreases n,
{
    let all = crate::rib::ensure_neighbors(wanted, current, n);
    let k = choose|k: int| 0 <= k < all.len() && all[k] == op;
    if n > 0 {
        let front = crate::rib::ensure_neighbors(wanted, current, n - 1);
        if k < front.len() {
            assert(front[k] == op);
            lemma_ensured_neighbors(wanted, current, n - 1, op);
            if let OpView::EnsureNeighbor { interface, ip, mac } = op {
                let i = choose|i: int|
                    0 <= i < n - 1 && (#[trigger] wanted[i]).0@ == (interface, ip) && wanted[i].1@
                        == mac;
                assert(wanted[i].1@ == mac);
            }
        } else {
            assert(wanted[n - 1].1@ == wanted[n - 1].1@);
        }
    }
}

proof fn lemma_ensured_routes(
    wanted: Seq<(String, WantedRoute)>,
    current: Map<Seq<char>, RouteProgram>,
    n: int,
    op: OpView,
)
    requires
        0 <= n <= wanted.len(),
        crate::rib::ensure_routes(wanted, current, n).contains(op),
    ensures
        op matches OpView::EnsureRoute { prefix, route } && !(current.dom().contains(prefix)
            && current[prefix] == route) && exists|i: int|
            0 <= i < n && (#[trigger] wanted[i]).0@ == prefix && wanted[i].1.deep_view() == route,
    decreases n,
{
    let all = crate::rib::ensure_routes(wanted, current, n);
    let k = choose|k: int| 0 <= k < all.len() && all[k] == op;
    if n > 0 {
        let front = crate::rib::ensure_routes(wanted, current, n - 1);
        if k < front.len() {
            assert(front[k] == op);
            lemma_ensured_routes(wanted, current, n - 1, op);
            if let OpView::EnsureRoute { prefix, route } = op {
                let i = choose|i: int|
                    0 <= i < n - 1 && (#[trigger] wanted[i]).0@ == prefix
                        && wanted[i].1.deep_view() == route;
                assert(wanted[i].0@ == prefix);
            }
        } else {
            assert(wanted[n - 1].0@ == wanted[n - 1].0@);
        }
    }
}

proof fn lemma_removed_routes(
    current: Seq<(String, WantedRoute)>,
    wanted: Map<Seq<char>, RouteProgram>,
    n: int,
    op: OpView,
)
    requires
        0 <= n <= current.len(),
        crate::rib::remove_routes(current, wanted, n).contains(op),
    ensures
        op matches OpView::RemoveRoute { prefix } && !wanted.dom().contains(prefix) && exists|
            i: int,
        | 0 <= i < n && (#[trigger] current[i]).0@ == prefix,
    decreases n,
{
    let all = crate::rib::remove_routes(current, wanted, n);
    let k = choose|k: int| 0 <= k < all.len() && all[k] == op;
    if n > 0 {
        let front = crate::rib::remove_routes(current, wanted, n - 1);
        if k < front.len() {
            assert(front[k] == op);
            lemma_removed_routes(current, wanted, n - 1, op);
            if let OpView::RemoveRoute { prefix } = op {
                let i = choose|i: int| 0 <= i < n - 1 && (#[trigger] current[i]).0@ == prefix;
                assert(current[i].0@ == prefix);
            }
        } else {
            assert(current[n - 1].0@ == current[n - 1].0@);
        }
    }
}

proof fn lemma_removed_neighbors(
    current: Seq<((String, String), String)>,
    wanted: Map<(Seq<char>, Seq<char>), Seq<char>>,
    n: int,
    op: OpView,
)
    requires
        0 <= n <= current.len(),
        crate::rib::remove_neighbors(current, wanted, n).contains(op),
    ensures
        op matches OpView::RemoveNeighbor { interface, ip } && !wanted.dom().contains(
            (interface, ip),
        ) && exists|i: int| 0 <= i < n && (#[trigger] current[i]).0@ == (interface, ip),
    decreases n,
{
    let all = crate::rib::remove_neighbors(current, wanted, n);
    let k = choose|k: int| 0 <= k < all.len() && all[k] == op;
    if n > 0 {
        let front = crate::rib::remove_neighbors(current, wanted, n - 1);
        if k < front.len() {
            assert(front[k] == op);
            lemma_removed_neighbors(current, wanted, n - 1, op);
            if let OpView::RemoveNeighbor { interface, ip } = op {
                let i = choose|i: int|
                    0 <= i < n - 1 && (#[trigger] current[i]).0@ == (interface, ip);
                assert(current[i].0@ == (interface, ip));
            }
        } else {
            assert(current[n - 1].0@ == current[n - 1].0@);
        }
    }
}

/// Nothing is done twice or for nothing: what is ensured is wanted and not
/// there as it is wanted, and what is removed is there and not wanted.
pub proof fn lemma_every_step_is_needed(current: Program, wanted: Program, op: OpView)
    requires
        crate::rib::diff_ops(current, wanted).contains(op),
    ensures
        match op {
            OpView::EnsureNeighbor { interface, ip, mac } => !(current@.neighbors.dom().contains(
                (interface, ip),
            ) && current@.neighbors[(interface, ip)] == mac) && exists|i: int|
                0 <= i < wanted.neighbors.entries@.len() && (
                #[trigger] wanted.neighbors.entries@[i]).0@ == (interface, ip)
                    && wanted.neighbors.entries@[i].1@ == mac,
            OpView::EnsureRoute { prefix, route } => !(current@.routes.dom().contains(prefix)
                && current@.routes[prefix] == route) && exists|i: int|
                0 <= i < wanted.routes.entries@.len() && (#[trigger] wanted.routes.entries@[i]).0@
                    == prefix && wanted.routes.entries@[i].1.deep_view() == route,
            OpView::RemoveRoute { prefix } => !wanted@.routes.dom().contains(prefix) && exists|
                i: int,
            |
                0 <= i < current.routes.entries@.len() && (#[trigger] current.routes.entries@[i]).0@
                    == prefix,
            OpView::RemoveNeighbor { interface, ip } => !wanted@.neighbors.dom().contains(
                (interface, ip),
            ) && exists|i: int|
                0 <= i < current.neighbors.entries@.len() && (
                #[trigger] current.neighbors.entries@[i]).0@ == (interface, ip),
        },
{
    let a = crate::rib::ensure_neighbors(
        wanted.neighbors.entries@,
        current@.neighbors,
        wanted.neighbors.entries@.len() as int,
    );
    let b = crate::rib::ensure_routes(
        wanted.routes.entries@,
        current@.routes,
        wanted.routes.entries@.len() as int,
    );
    let c = crate::rib::remove_routes(
        current.routes.entries@,
        wanted@.routes,
        current.routes.entries@.len() as int,
    );
    let d = crate::rib::remove_neighbors(
        current.neighbors.entries@,
        wanted@.neighbors,
        current.neighbors.entries@.len() as int,
    );
    let all = a + b + c + d;
    let k = choose|k: int| 0 <= k < all.len() && all[k] == op;
    if k < a.len() {
        assert(a[k] == op);
        lemma_ensured_neighbors(
            wanted.neighbors.entries@,
            current@.neighbors,
            wanted.neighbors.entries@.len() as int,
            op,
        );
    } else if k < a.len() + b.len() {
        assert(b[k - a.len()] == op);
        lemma_ensured_routes(
            wanted.routes.entries@,
            current@.routes,
            wanted.routes.entries@.len() as int,
            op,
        );
    } else if k < a.len() + b.len() + c.len() {
        assert(c[k - a.len() - b.len()] == op);
        lemma_removed_routes(
            current.routes.entries@,
            wanted@.routes,
            current.routes.entries@.len() as int,
            op,
        );
    } else {
        assert(d[k - a.len() - b.len() - c.len()] == op);
        lemma_removed_neighbors(
            current.neighbors.entries@,
            wanted@.neighbors,
            current.neighbors.entries@.len() as int,
            op,
        );
    }
}

// ------------------------------------------------------------- showing

/// The place of a prefix in a table: what is no prefix first, then by address,
/// IPv4 before IPv6, then by length.
pub open spec fn stands_before(a: Seq<char>, b: Seq<char>) -> bool {
    let (x, m) = crate::rib::prefix_rank(a);
    let (y, n) = crate::rib::prefix_rank(b);
    ||| x is None && y is Some
    ||| x is Some && y is Some && crate::laws::snoop::lower(x->0, y->0)
    ||| x == y && m < n
}

proof fn lemma_ranks(a: (Option<IpAddr>, u8), b: (Option<IpAddr>, u8), c: (Option<IpAddr>, u8))
    requires
        !crate::rib::rank_before(b, a),
        !crate::rib::rank_before(c, b),
    ensures
        !crate::rib::rank_before(c, a),
{
}

proof fn lemma_views_insert(s: Seq<RouteView>, v: RouteView)
    requires
        forall|i: int, j: int|
            0 <= i < j < s.len() ==> !crate::rib::rank_before(
                crate::rib::prefix_rank((#[trigger] s[j]).prefix@),
                crate::rib::prefix_rank((#[trigger] s[i]).prefix@),
            ),
    ensures
        ({
            let r = crate::rib::insert_view(s, v);
            &&& r.to_multiset() == s.to_multiset().insert(v)
            &&& r.len() == s.len() + 1
            &&& r.last() == v || (s.len() > 0 && r.last() == s.last())
            &&& forall|i: int, j: int|
                0 <= i < j < r.len() ==> !crate::rib::rank_before(
                    crate::rib::prefix_rank((#[trigger] r[j]).prefix@),
                    crate::rib::prefix_rank((#[trigger] r[i]).prefix@),
                )
        }),
    decreases s.len(),
{
    broadcast use vstd::seq_lib::group_to_multiset_ensures;

    let r = crate::rib::insert_view(s, v);
    let rank = |x: RouteView| crate::rib::prefix_rank(x.prefix@);
    if s.len() == 0 || !crate::rib::rank_before(
        crate::rib::prefix_rank(v.prefix@),
        crate::rib::prefix_rank(s.last().prefix@),
    ) {
        assert forall|i: int, j: int| 0 <= i < j < r.len() implies !crate::rib::rank_before(
            crate::rib::prefix_rank((#[trigger] r[j]).prefix@),
            crate::rib::prefix_rank((#[trigger] r[i]).prefix@),
        ) by {
            if j == s.len() && i < s.len() - 1 {
                lemma_ranks(rank(s[i]), rank(s.last()), rank(v));
            }
        }
    } else {
        let front = s.drop_last();
        lemma_views_insert(front, v);
        let t = crate::rib::insert_view(front, v);
        assert(r == t.push(s.last()));
        assert(s =~= front.push(s.last()));
        assert(r.to_multiset() =~= s.to_multiset().insert(v));
        assert forall|i: int, j: int| 0 <= i < j < r.len() implies !crate::rib::rank_before(
            crate::rib::prefix_rank((#[trigger] r[j]).prefix@),
            crate::rib::prefix_rank((#[trigger] r[i]).prefix@),
        ) by {
            if j == t.len() {
                assert(!crate::rib::rank_before(rank(s.last()), rank(t.last()))) by {
                    if t.last() == v {
                    } else {
                        assert(t.last() == front[front.len() - 1]);
                        assert(s[front.len() - 1] == front[front.len() - 1]);
                        assert(s[s.len() - 1] == s.last());
                    }
                }
                if i < t.len() - 1 {
                    assert(t[t.len() - 1] == t.last());
                    lemma_ranks(rank(t[i]), rank(t.last()), rank(s.last()));
                }
            }
        }
    }
}

/// The routes are shown by rising prefix, none lost or added.
pub proof fn lemma_routes_are_shown_sorted(s: Seq<RouteView>)
    ensures
        ({
            let r = crate::rib::by_prefix(s);
            &&& r.to_multiset() == s.to_multiset()
            &&& forall|i: int, j: int|
                0 <= i < j < r.len() ==> !stands_before(
                    (#[trigger] r[j]).prefix@,
                    (#[trigger] r[i]).prefix@,
                )
        }),
{
    lemma_sorted(s);
    let r = crate::rib::by_prefix(s);
    assert forall|i: int, j: int| 0 <= i < j < r.len() implies !stands_before(
        (#[trigger] r[j]).prefix@,
        (#[trigger] r[i]).prefix@,
    ) by {
        assert(!crate::rib::rank_before(
            crate::rib::prefix_rank(r[j].prefix@),
            crate::rib::prefix_rank(r[i].prefix@),
        ));
    }
}

proof fn lemma_sorted(s: Seq<RouteView>)
    ensures
        ({
            let r = crate::rib::by_prefix(s);
            &&& r.to_multiset() == s.to_multiset()
            &&& forall|i: int, j: int|
                0 <= i < j < r.len() ==> !crate::rib::rank_before(
                    crate::rib::prefix_rank((#[trigger] r[j]).prefix@),
                    crate::rib::prefix_rank((#[trigger] r[i]).prefix@),
                )
        }),
    decreases s.len(),
{
    broadcast use vstd::seq_lib::group_to_multiset_ensures;

    if s.len() > 0 {
        lemma_sorted(s.drop_last());
        lemma_views_insert(crate::rib::by_prefix(s.drop_last()), s.last());
        assert(s =~= s.drop_last().push(s.last()));
    }
}

proof fn lemma_neighbor_put(s: Seq<NeighborView>, v: NeighborView)
    ensures
        crate::rib::insert_neighbor_view(s, v).to_multiset() == s.to_multiset().insert(v),
    decreases s.len(),
{
    broadcast use vstd::seq_lib::group_to_multiset_ensures;

    if s.len() > 0 {
        lemma_neighbor_put(s.drop_last(), v);
        assert(s =~= s.drop_last().push(s.last()));
        assert(crate::rib::insert_neighbor_view(s, v).to_multiset() =~= s.to_multiset().insert(v));
    }
}

proof fn lemma_neighbors_kept(s: Seq<NeighborView>)
    ensures
        crate::rib::by_address(s).to_multiset() == s.to_multiset(),
    decreases s.len(),
{
    broadcast use vstd::seq_lib::group_to_multiset_ensures;

    if s.len() > 0 {
        lemma_neighbors_kept(s.drop_last());
        lemma_neighbor_put(crate::rib::by_address(s.drop_last()), s.last());
        assert(s =~= s.drop_last().push(s.last()));
    }
}

/// The neighbors are shown by rising address, none lost or added.
pub proof fn lemma_neighbors_are_shown_sorted(s: Seq<NeighborView>)
    ensures
        ({
            let r = crate::rib::by_address(s);
            &&& r.to_multiset() == s.to_multiset()
            &&& forall|i: int, j: int|
                0 <= i < j < r.len() ==> {
                    let x = crate::ip::ip_value((#[trigger] r[i]).ip@);
                    let y = crate::ip::ip_value((#[trigger] r[j]).ip@);
                    &&& y is None ==> x is None
                    &&& x is Some && y is Some ==> !crate::laws::snoop::lower(y->0, x->0)
                }
        }),
{
    crate::rib::lemma_neighbors_sorted(s);
    lemma_neighbors_kept(s);
    let r = crate::rib::by_address(s);
    assert forall|i: int, j: int| 0 <= i < j < r.len() implies {
        let x = crate::ip::ip_value((#[trigger] r[i]).ip@);
        let y = crate::ip::ip_value((#[trigger] r[j]).ip@);
        &&& y is None ==> x is None
        &&& x is Some && y is Some ==> !crate::laws::snoop::lower(y->0, x->0)
    } by {
        assert(!crate::rib::opt_ip_before(
            crate::ip::ip_value(r[j].ip@),
            crate::ip::ip_value(r[i].ip@),
        ));
    }
}

/// What a prefix ranks by: its address and its length, the largest where it has
/// none of eight bits.
pub proof fn lemma_prefixes_rank(prefix: Seq<char>)
    ensures
        crate::text::cut_text(prefix, '/') is None ==> crate::rib::prefix_rank(prefix) == (
            None::<IpAddr>,
            255u8,
        ),
        crate::text::cut_text(prefix, '/') matches Some(p) ==> {
            let r = crate::rib::prefix_rank(prefix);
            &&& r.0 == crate::ip::ip_value(p.0)
            &&& crate::text::unsigned_upto(p.1, 10, 255) matches Some(n) ==> r.1 == n
            &&& crate::text::unsigned_upto(p.1, 10, 255) is None ==> r.1 == 255
        },
{
    if let Some(p) = crate::text::cut_text(prefix, '/') {
        crate::text::lemma_unsigned_nonneg(p.1, 10);
    }
}

/// A prefix is worth a row: an address that can be forwarded to, with a length.
pub open spec fn is_destination(prefix: Seq<char>) -> bool {
    crate::text::cut_text(prefix, '/') matches Some(parts) && crate::ip::ip_value(parts.0)
        is Some && forwardable(crate::ip::ip_value(parts.0)->0)
}

/// The routes of a family that can be forwarded are shown, in order; of the
/// neighbors those of the family whose address is not link-local.
pub proof fn lemma_families_are_shown(
    rs: Seq<KernelRoute>,
    ns: Seq<KernelNeighbor>,
    v6: bool,
    n: int,
)
    ensures
        crate::rib::shown_routes(rs, v6, 0).len() == 0,
        crate::rib::shown_neighbors(ns, v6, 0).len() == 0,
        0 < n <= rs.len() ==> {
            let r = rs[n - 1];
            crate::rib::shown_routes(rs, v6, n) == (if r.prefix@.contains(':') == v6
                && is_destination(r.prefix@) {
                crate::rib::shown_routes(rs, v6, n - 1).push(r)
            } else {
                crate::rib::shown_routes(rs, v6, n - 1)
            })
        },
        0 < n <= ns.len() ==> {
            let x = ns[n - 1];
            crate::rib::shown_neighbors(ns, v6, n) == (if x.ip@.contains(':') == v6
                && !crate::text::begins_with(x.ip@, "fe80"@) && !crate::text::begins_with(
                x.ip@,
                "169.254."@,
            ) {
                crate::rib::shown_neighbors(ns, v6, n - 1).push(x)
            } else {
                crate::rib::shown_neighbors(ns, v6, n - 1)
            })
        },
{
}

proof fn lemma_row(views: Seq<RouteView>, token: Seq<char>, from: int)
    requires
        0 <= from,
    ensures
        match crate::rib::row_of(views, token, from) {
            Some(i) => from <= i < views.len() && views[i].prefix@ == token && forall|j: int|
                from <= j < i ==> (#[trigger] views[j]).prefix@ != token,
            None => forall|j: int|
                from <= j < views.len() ==> (#[trigger] views[j]).prefix@ != token,
        },
    decreases views.len() - from,
{
    if from < views.len() && views[from].prefix@ != token {
        lemma_row(views, token, from + 1);
    }
}

/// A page starts behind the row that the token names; with no token, or one
/// that names no row, at the start.
pub proof fn lemma_pages_go_on(views: Seq<RouteView>, token: Seq<char>, i: int)
    ensures
        token.len() == 0 ==> crate::rib::after_token(views, token) == views,
        (forall|j: int| 0 <= j < views.len() ==> (#[trigger] views[j]).prefix@ != token)
            ==> crate::rib::after_token(views, token) == views,
        token.len() > 0 && 0 <= i < views.len() && views[i].prefix@ == token && (forall|j: int|
            0 <= j < i ==> (#[trigger] views[j]).prefix@ != token) ==> crate::rib::after_token(
            views,
            token,
        ) == views.skip(i + 1),
{
    lemma_row(views, token, 0);
    if let Some(k) = crate::rib::row_of(views, token, 0) {
        assert(views[k].prefix@ == token);
        if 0 <= i < k {
            assert(views[i].prefix@ != token);
        }
    }
}

} // verus!
