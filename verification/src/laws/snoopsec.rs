//! Laws of DHCP snooping, ARP inspection and the DHCP relay.

use vstd::prelude::*;

use crate::snoopsec::{Config, DaiVlanStats, L2View, Tables, Validate};

verus! {

/// The sender of an ARP frame holds the address that it claims: by its lease,
/// or where it has none by a static binding.
pub open spec fn claims_its_own(t: Tables, config: Config, vlan: u16, frame: Seq<u8>) -> bool {
    let k = (crate::mac::mac_chars(frame.subrange(22, 28)), vlan);
    let claimed = crate::bytes::word32(frame, 28);
    ||| t.dynamics.dom().contains(k) && t.dynamics[k].ip.bits == claimed
    ||| !t.dynamics.dom().contains(k) && config.statics@.dom().contains(k)
        && config.statics@[k].ip.bits == claimed
}

/// Is an address one that no station sends from: broadcast, 224.0.0.0/4 or
/// 127.0.0.0/8?
pub open spec fn no_station(bits: u32) -> bool {
    bits == 0xffff_ffff || 0xe000_0000 <= bits <= 0xefff_ffff || 0x7f00_0000 <= bits <= 0x7fff_ffff
}

proof fn lemma_mac_same(frame: Seq<u8>, a: int, b: int)
    requires
        0 <= a,
        0 <= b,
        a + 6 <= frame.len(),
        b + 6 <= frame.len(),
    ensures
        crate::mac::mac_chars(frame.subrange(a, a + 6)) == crate::mac::mac_chars(
            frame.subrange(b, b + 6),
        ) <==> frame.subrange(a, a + 6) == frame.subrange(b, b + 6),
{
    let x = frame.subrange(a, a + 6);
    let y = frame.subrange(b, b + 6);
    if crate::mac::mac_chars(x) == crate::mac::mac_chars(y) {
        crate::mac::lemma_mac_chars_injective(x, y);
    }
}

/// A plain request passes whatever is checked: the sender holds the address it
/// claims, sends from its own hardware address, and the address is a
/// station's. The frame goes to every other port of the VLAN and counts as
/// forwarded.
pub proof fn lemma_honest_requests_pass(
    t: Tables,
    config: Config,
    view: L2View,
    port: Seq<char>,
    vlan: u16,
    frame: Seq<u8>,
)
    requires
        frame.len() >= 42,
        frame.subrange(14, 20) == seq![0u8, 1, 8, 0, 6, 4],
        config.arp_vlans@.dom().contains(vlan),
        crate::bytes::word16(frame, 20) != 2,
        claims_its_own(t, config, vlan, frame),
        frame.subrange(22, 28) == frame.subrange(6, 12),
        !no_station(crate::bytes::word32(frame, 28)),
        crate::snoopsec::room(t, vlan),
    ensures
        crate::snoopsec::verdict(t, config, vlan, frame) is Forward,
        forall|p: Seq<char>| #[trigger]
            crate::snoopsec::arp_targets(t, config, view, port, vlan, frame).contains(p) <==> p
                != port && view.vlan_ports@.dom().contains(vlan) && view.vlan_ports@[vlan]@.dom().contains(
                p,
            ),
        ({
            let s = crate::snoopsec::arp_at(t.arp_stats, vlan);
            let r = crate::snoopsec::after_arp(t, config, vlan, frame);
            r.arp_stats[vlan] == (DaiVlanStats { forwarded: (s.forwarded + 1) as u64, ..s })
                && r.dynamics == t.dynamics
        }),
{
}

/// ARP inspection as a whole. A frame on an inspected VLAN passes exactly where
/// every check in force and the binding allow it. The source check is in force
/// where it is configured or nothing is; the target check concerns replies
/// alone; the address check refuses what no station sends from, and a reply
/// from nowhere.
pub proof fn lemma_inspection(t: Tables, config: Config, vlan: u16, frame: Seq<u8>)
    requires
        frame.len() >= 42,
        frame.subrange(14, 20) == seq![0u8, 1, 8, 0, 6, 4],
        config.arp_vlans@.dom().contains(vlan),
    ensures
        ({
            let reply = crate::bytes::word16(frame, 20) == 2;
            let from = crate::bytes::word32(frame, 28);
            let set = config.validate@.dom();
            let none = config.validate.entries@.len() == 0;
            crate::snoopsec::verdict(t, config, vlan, frame) is Forward <==> {
                &&& none || set.contains(Validate::SrcMac) ==> frame.subrange(22, 28)
                    == frame.subrange(6, 12)
                &&& !none && set.contains(Validate::DstMac) && reply ==> frame.subrange(32, 38)
                    == frame.subrange(0, 6)
                &&& !none && set.contains(Validate::Ip) ==> !no_station(from) && !(reply && from
                    == 0)
                &&& claims_its_own(t, config, vlan, frame)
            }
        }),
{
    lemma_mac_same(frame, 22, 6);
    lemma_mac_same(frame, 32, 0);
}

/// What is no Ethernet ARP for IPv4, and what arrives on a VLAN that is not
/// inspected, is left alone.
pub proof fn lemma_not_inspected(
    t: Tables,
    config: Config,
    view: L2View,
    port: Seq<char>,
    vlan: u16,
    frame: Seq<u8>,
)
    requires
        frame.len() < 42 || frame.subrange(14, 20) != seq![0u8, 1, 8, 0, 6, 4]
            || !config.arp_vlans@.dom().contains(vlan),
    ensures
        crate::snoopsec::after_arp(t, config, vlan, frame) == t,
        crate::snoopsec::arp_targets(t, config, view, port, vlan, frame) == Set::<Seq<char>>::empty(),
{
}

/// What is refused goes nowhere and is counted once as dropped: a foreign
/// source also as a bad source, and a claim that is not the sender's, where
/// the checks let it through, also as a bad binding. Nothing is learned.
pub proof fn lemma_refusals_are_counted(
    t: Tables,
    config: Config,
    view: L2View,
    port: Seq<char>,
    vlan: u16,
    frame: Seq<u8>,
)
    requires
        frame.len() >= 42,
        frame.subrange(14, 20) == seq![0u8, 1, 8, 0, 6, 4],
        config.arp_vlans@.dom().contains(vlan),
        !(crate::snoopsec::verdict(t, config, vlan, frame) is Forward),
        crate::snoopsec::room(t, vlan),
    ensures
        ({
            let a = crate::snoopsec::arp_at(t.arp_stats, vlan);
            let r = crate::snoopsec::after_arp(t, config, vlan, frame);
            let b = r.arp_stats[vlan];
            let foreign = frame.subrange(22, 28) != frame.subrange(6, 12) && (
            config.validate.entries@.len() == 0 || config.validate@.dom().contains(
                Validate::SrcMac,
            ));
            let unchecked = config.validate.entries@.len() == 0 || (!config.validate@.dom().contains(
                Validate::DstMac,
            ) && !config.validate@.dom().contains(Validate::Ip));
            &&& b.dropped == a.dropped + 1
            &&& b.forwarded == a.forwarded
            &&& foreign ==> b.bad_src_mac == a.bad_src_mac + 1 && b.bad_binding == a.bad_binding
            &&& !foreign ==> b.bad_src_mac == a.bad_src_mac
            &&& !foreign && unchecked ==> b.bad_binding == a.bad_binding + 1
            &&& r.dynamics == t.dynamics && r.pending == t.pending && r.dhcp_stats == t.dhcp_stats
                && r.relay_stats == t.relay_stats
            &&& forall|v: u16| v != vlan && #[trigger] t.arp_stats.dom().contains(v)
                ==> r.arp_stats.dom().contains(v) && r.arp_stats[v] == t.arp_stats[v]
        }),
        crate::snoopsec::arp_targets(t, config, view, port, vlan, frame) == Set::<Seq<char>>::empty(),
{
    lemma_mac_same(frame, 22, 6);
    lemma_mac_same(frame, 32, 0);
}

/// A port that DHCP servers may answer from: named as trusted itself, or a
/// member of a Port-Channel that is.
pub open spec fn server_side(config: Config, view: L2View, port: Seq<char>) -> bool {
    ||| config.dhcp_trusted@.dom().contains(port)
    ||| exists|name: Seq<char>|
        config.dhcp_trusted@.dom().contains(name) && #[trigger] view.po_members@.dom().contains(name)
            && view.po_members@[name]@.dom().contains(port)
}

proof fn lemma_server_side(config: Config, view: L2View, port: Seq<char>)
    ensures
        crate::snoopsec::dhcp_trusts(config, view, port) == server_side(config, view, port),
{
    let set = config.dhcp_trusted@.dom();
    if crate::snoopsec::expanded(view, set).contains(port) {
        let name = choose|name: Seq<char>| #[trigger]
            set.contains(name) && crate::snoopsec::stands_for(view, name, port);
        if view.po_members@.dom().contains(name) {
            assert(view.po_members@[name]@.dom().contains(port));
        }
    }
    if exists|name: Seq<char>|
        set.contains(name) && #[trigger] view.po_members@.dom().contains(name)
            && view.po_members@[name]@.dom().contains(port) {
        let name = choose|name: Seq<char>|
            set.contains(name) && #[trigger] view.po_members@.dom().contains(name)
                && view.po_members@[name]@.dom().contains(port);
        assert(set.contains(name) && crate::snoopsec::stands_for(view, name, port));
    }
}

/// The type of a DHCP message, by its option 53.
pub open spec fn message_type(d: Seq<u8>) -> Option<u8> {
    crate::dhcp::type_in(crate::dhcp::options_of(d, 240))
}

/// A server message on a snooped VLAN. From a port that servers may answer
/// from, an ACK with an address binds it to the client, on the port the client
/// was last heard on, for the lease time or a day; a NAK ends the transaction.
/// From any other port it is dropped and counted. It is never sent on.
pub proof fn lemma_server_messages(
    t: Tables,
    config: Config,
    view: L2View,
    port: Seq<char>,
    vlan: u16,
    frame: Seq<u8>,
    now: u64,
)
    requires
        crate::dhcp::is_dhcp(frame),
        config.dhcp_vlans@.dom().contains(vlan),
        crate::dhcp::bootp_part(frame)[0] == 2,
        crate::snoopsec::room(t, vlan),
    ensures
        ({
            let d = crate::dhcp::bootp_part(frame);
            let r = crate::snoopsec::after_dhcp(t, config, view, port, vlan, frame, now);
            let k = (crate::mac::mac_chars(d.subrange(28, 34)), vlan);
            let ip = crate::bytes::word32(d, 16);
            let a = crate::snoopsec::dhcp_at(t.dhcp_stats, vlan);
            let b = r.dhcp_stats[vlan];
            let ack = message_type(d) == Some(5u8) && ip != 0;
            &&& b.packets == a.packets + 1
            &&& !server_side(config, view, port) ==> b.dropped == a.dropped + 1
                && r.untrusted_server_drops == t.untrusted_server_drops + 1 && r.dynamics
                == t.dynamics && r.pending == t.pending
            &&& server_side(config, view, port) ==> b.dropped == a.dropped
                && r.untrusted_server_drops == t.untrusted_server_drops
            &&& server_side(config, view, port) && ack ==> {
                &&& r.dynamics.dom() == t.dynamics.dom().insert(k)
                &&& r.dynamics[k].ip.bits == ip
                &&& t.pending.dom().contains(k) ==> r.dynamics[k].interface == t.pending[k]
                &&& !t.pending.dom().contains(k) && t.dynamics.dom().contains(k)
                    ==> r.dynamics[k].interface == t.dynamics[k].interface
                &&& crate::dhcp::lease_in(crate::dhcp::options_of(d, 240)) matches Some(secs)
                    ==> r.dynamics[k].expires_at == now + secs
                &&& crate::dhcp::lease_in(crate::dhcp::options_of(d, 240)) is None
                    ==> r.dynamics[k].expires_at == now + 86400
                &&& !r.pending.dom().contains(k)
                &&& forall|o: (Seq<char>, u16)| o != k && #[trigger] t.dynamics.dom().contains(o)
                    ==> r.dynamics[o] == t.dynamics[o]
            }
            &&& server_side(config, view, port) && !ack ==> r.dynamics == t.dynamics
            &&& server_side(config, view, port) && message_type(d) == Some(6u8) ==> r.pending
                == t.pending.remove(k)
            &&& server_side(config, view, port) && !ack && message_type(d) != Some(6u8)
                ==> r.pending == t.pending
            &&& crate::snoopsec::dhcp_saves(config, view, port, vlan, frame) == (server_side(
                config,
                view,
                port,
            ) && ack)
        }),
        crate::snoopsec::dhcp_targets(config, view, port, vlan, frame) == Set::<Seq<char>>::empty(),
        crate::snoopsec::relay_for(config, vlan, frame) is None,
{
    lemma_server_side(config, view, port);
    let d = crate::dhcp::bootp_part(frame);
    let r = crate::snoopsec::after_dhcp(t, config, view, port, vlan, frame, now);
    let k = (crate::mac::mac_chars(d.subrange(28, 34)), vlan);
    if server_side(config, view, port) && message_type(d) == Some(5u8) && crate::bytes::word32(
        d,
        16,
    ) != 0 {
        assert(r.dynamics.dom() =~= t.dynamics.dom().insert(k));
    }
}

/// A client message on a snooped VLAN. One whose hardware address is not its
/// source is dropped. A RELEASE or a DECLINE ends the binding; any other is
/// remembered with its port. From a port that servers do not answer from it
/// goes to the ports of the VLAN that they do, unless the VLAN is relayed.
pub proof fn lemma_client_messages(
    t: Tables,
    config: Config,
    view: L2View,
    port: Seq<char>,
    vlan: u16,
    frame: Seq<u8>,
    now: u64,
)
    requires
        crate::dhcp::is_dhcp(frame),
        config.dhcp_vlans@.dom().contains(vlan),
        crate::dhcp::bootp_part(frame)[0] == 1,
        crate::snoopsec::room(t, vlan),
    ensures
        ({
            let d = crate::dhcp::bootp_part(frame);
            let r = crate::snoopsec::after_dhcp(t, config, view, port, vlan, frame, now);
            let k = (crate::mac::mac_chars(d.subrange(28, 34)), vlan);
            let a = crate::snoopsec::dhcp_at(t.dhcp_stats, vlan);
            let b = r.dhcp_stats[vlan];
            let own = d.subrange(28, 34) == frame.subrange(6, 12);
            let ends = message_type(d) == Some(7u8) || message_type(d) == Some(4u8);
            let relayed = config.relay@.dom().contains(vlan);
            let out = crate::snoopsec::dhcp_targets(config, view, port, vlan, frame);
            &&& b.packets == a.packets + 1
            &&& r.untrusted_server_drops == t.untrusted_server_drops
            &&& !own ==> b.dropped == a.dropped + 1 && r.dynamics == t.dynamics && r.pending
                == t.pending && r.relay_stats == t.relay_stats
            &&& own ==> b.dropped == a.dropped
            &&& own && ends ==> r.dynamics == t.dynamics.remove(k) && r.pending == t.pending
            &&& own && !ends ==> r.dynamics == t.dynamics && r.pending == t.pending.insert(k, port)
            &&& crate::snoopsec::dhcp_saves(config, view, port, vlan, frame) == (own && ends)
            &&& forall|p: Seq<char>| #[trigger]
                out.contains(p) ==> own && !relayed && !server_side(config, view, port) && p != port
                    && view.vlan_ports@.dom().contains(vlan) && view.vlan_ports@[vlan]@.dom().contains(
                    p,
                ) && server_side(config, view, p)
            &&& forall|p: Seq<char>|
                own && !relayed && !server_side(config, view, port)
                    && config.dhcp_trusted@.dom().contains(p) && !view.po_members@.dom().contains(p)
                    && view.vlan_ports@.dom().contains(vlan)
                    && #[trigger] view.vlan_ports@[vlan]@.dom().contains(p) ==> out.contains(p)
            &&& forall|p: Seq<char>, name: Seq<char>|
                own && !relayed && !server_side(config, view, port)
                    && config.dhcp_trusted@.dom().contains(name)
                    && #[trigger] view.po_members@.dom().contains(name)
                    && view.po_members@[name]@.dom().contains(p) && view.vlan_ports@.dom().contains(
                    vlan,
                ) && #[trigger] view.vlan_ports@[vlan]@.dom().contains(p) ==> out.contains(p)
        }),
{
    let set = config.dhcp_trusted@.dom();
    let out = crate::snoopsec::dhcp_targets(config, view, port, vlan, frame);
    lemma_server_side(config, view, port);
    assert forall|p: Seq<char>| #[trigger] out.contains(p) implies server_side(config, view, p) by {
        lemma_server_side(config, view, p);
    }
    assert forall|p: Seq<char>|
        crate::snoopsec::from_client(config, vlan, frame) && crate::snoopsec::honest(frame)
            && crate::snoopsec::relay_for(config, vlan, frame) is None && !server_side(
            config,
            view,
            port,
        ) && set.contains(p) && !view.po_members@.dom().contains(p)
            && view.vlan_ports@.dom().contains(vlan)
            && #[trigger] view.vlan_ports@[vlan]@.dom().contains(p) implies out.contains(p) by {
        assert(set.contains(p) && crate::snoopsec::stands_for(view, p, p));
        assert(crate::snoopsec::expanded(view, set).contains(p));
        assert(p != port);
    }
    assert forall|p: Seq<char>, name: Seq<char>|
        crate::snoopsec::from_client(config, vlan, frame) && crate::snoopsec::honest(frame)
            && crate::snoopsec::relay_for(config, vlan, frame) is None && !server_side(
            config,
            view,
            port,
        ) && set.contains(name) && #[trigger] view.po_members@.dom().contains(name)
            && view.po_members@[name]@.dom().contains(p) && view.vlan_ports@.dom().contains(vlan)
            && #[trigger] view.vlan_ports@[vlan]@.dom().contains(p) implies out.contains(p) by {
        assert(set.contains(name) && crate::snoopsec::stands_for(view, name, p));
        assert(crate::snoopsec::expanded(view, set).contains(p));
        assert(p != port);
    }
}

/// A client message on a relayed VLAN goes to every server, with the relay's
/// address and one hop more, where the relay has an address and a server; else
/// it is counted as dropped. One that is not the sender's own is not relayed.
pub proof fn lemma_relayed_messages(
    t: Tables,
    config: Config,
    view: L2View,
    port: Seq<char>,
    vlan: u16,
    frame: Seq<u8>,
    now: u64,
    out: Seq<crate::snoopsec::RelayDatagram>,
)
    requires
        crate::dhcp::is_dhcp(frame),
        config.dhcp_vlans@.dom().contains(vlan),
        crate::dhcp::bootp_part(frame)[0] == 1,
        config.relay@.dom().contains(vlan),
        crate::snoopsec::room(t, vlan),
        crate::snoopsec::dhcp_relays(out, config, vlan, frame),
    ensures
        ({
            let d = crate::dhcp::bootp_part(frame);
            let r = crate::snoopsec::after_dhcp(t, config, view, port, vlan, frame, now);
            let a = crate::snoopsec::relay_at(t.relay_stats, vlan);
            let b = r.relay_stats[vlan];
            let relay = config.relay@[vlan];
            let own = d.subrange(28, 34) == frame.subrange(6, 12);
            let able = relay.giaddr.bits != 0 && relay.servers@.len() > 0;
            &&& own && able ==> {
                &&& out.len() == relay.servers@.len()
                &&& b.to_server == a.to_server + 1 && b.dropped == a.dropped && b.to_client
                    == a.to_client
                &&& forall|i: int|
                    0 <= i < out.len() ==> (#[trigger] out[i]).server == relay.servers@[i]
                        && out[i].giaddr == relay.giaddr && out[i].payload@
                        == crate::dhcp::relayed(
                        frame.subrange(
                            crate::dhcp::udp_start(frame) + 8,
                            crate::dhcp::payload_end(frame),
                        ),
                        relay.giaddr,
                    )
            }
            &&& own && !able ==> out.len() == 0 && b.dropped == a.dropped + 1 && b.to_server
                == a.to_server
            &&& !own ==> out.len() == 0
        }),
{
}

/// What is no DHCP, or arrives on a VLAN that is not snooped, is left alone.
pub proof fn lemma_not_snooped(
    t: Tables,
    config: Config,
    view: L2View,
    port: Seq<char>,
    vlan: u16,
    frame: Seq<u8>,
    now: u64,
)
    requires
        !crate::dhcp::is_dhcp(frame) || !config.dhcp_vlans@.dom().contains(vlan),
    ensures
        crate::snoopsec::after_dhcp(t, config, view, port, vlan, frame, now) == t,
        crate::snoopsec::dhcp_targets(config, view, port, vlan, frame) == Set::<Seq<char>>::empty(),
        crate::snoopsec::relay_for(config, vlan, frame) is None,
        !crate::snoopsec::dhcp_saves(config, view, port, vlan, frame),
{
}

/// A reply on the relay socket. An ACK with an address binds it on the VLAN
/// of the relay, as a snooped one does; a reply counts as sent to the client,
/// anything else as dropped. It goes to the port of the client's binding alone
/// where the client can take a unicast, else to every port of the VLAN.
pub proof fn lemma_relay_replies(t: Tables, view: L2View, vlan: u16, payload: Seq<u8>, now: u64)
    requires
        crate::snoopsec::room(t, vlan),
    ensures
        ({
            let r = crate::snoopsec::after_reply(t, vlan, payload, now);
            let a = crate::snoopsec::relay_at(t.relay_stats, vlan);
            let b = r.relay_stats[vlan];
            let cookie = payload.len() >= 240 && crate::bytes::word32(payload, 236) == 0x6382_5363;
            let reply = cookie && payload[0] == 2;
            let k = (crate::mac::mac_chars(payload.subrange(28, 34)), vlan);
            let ip = crate::bytes::word32(payload, 16);
            let ack = message_type(payload) == Some(5u8) && ip != 0;
            let out = crate::snoopsec::reply_targets(r, view, vlan, payload);
            &&& crate::snoopsec::is_server_reply(payload) == reply
            &&& reply ==> b.to_client == a.to_client + 1 && b.dropped == a.dropped
            &&& !reply ==> b.dropped == a.dropped + 1 && b.to_client == a.to_client && r.dynamics
                == t.dynamics
            &&& reply && ack ==> r.dynamics.dom().contains(k) && r.dynamics[k].ip.bits == ip && (
            t.pending.dom().contains(k) ==> r.dynamics[k].interface == t.pending[k])
            &&& reply && !ack ==> r.dynamics == t.dynamics
            &&& crate::snoopsec::binds(payload) == ack
            &&& payload[10] < 128 && r.dynamics.dom().contains(k) && r.dynamics[k].interface.len()
                > 0 ==> forall|p: Seq<char>| #[trigger] out.contains(p) <==> p
                == r.dynamics[k].interface
            &&& payload[10] >= 128 || !r.dynamics.dom().contains(k)
                || r.dynamics[k].interface.len() == 0 ==> forall|p: Seq<char>| #[trigger]
                out.contains(p) <==> view.vlan_ports@.dom().contains(vlan)
                    && view.vlan_ports@[vlan]@.dom().contains(p)
        }),
{
}

/// The redirects of a VLAN: each of its ports is in exactly one list, by
/// whether servers may answer from it.
pub proof fn lemma_redirects(
    r: (u16, Seq<Seq<char>>, Seq<Seq<char>>),
    vlan: u16,
    config: Config,
    view: L2View,
    p: Seq<char>,
)
    requires
        crate::snoopsec::is_dhcp_redirect(r, vlan, config, view),
        config.dhcp_trusted@.dom().contains(p) ==> !view.po_members@.dom().contains(p),
    ensures
        ({
            let carries = view.vlan_ports@.dom().contains(vlan) && view.vlan_ports@[vlan]@.dom().contains(
                p,
            );
            &&& r.0 == vlan
            &&& r.1.contains(p) <==> carries && !server_side(config, view, p)
            &&& r.2.contains(p) <==> carries && server_side(config, view, p)
        }),
{
    lemma_server_side(config, view, p);
    let trusted = crate::snoopsec::expanded(view, config.dhcp_trusted@.dom());
    if config.dhcp_trusted@.dom().contains(p) {
        assert(config.dhcp_trusted@.dom().contains(p) && crate::snoopsec::stands_for(view, p, p));
        assert(trusted.contains(p));
    }
    assert(trusted.contains(p) == server_side(config, view, p));
    lemma_listed(
        r.1,
        crate::ordmap::picked_names(view.carriers(vlan), trusted, false),
        p,
    );
    lemma_listed(
        r.2,
        crate::ordmap::picked_names(view.carriers(vlan), trusted, true),
        p,
    );
}

proof fn lemma_listed(s: Seq<Seq<char>>, set: Set<Seq<char>>, p: Seq<char>)
    requires
        crate::ordmap::lists(s, set),
    ensures
        s.contains(p) <==> set.contains(p),
{
    assert(crate::ordmap::name_set(s).contains(p) <==> set.contains(p));
}

/// The ARP redirects of a VLAN: its ports but the trusted ones.
pub proof fn lemma_arp_redirects(
    r: (u16, Seq<Seq<char>>),
    vlan: u16,
    config: Config,
    view: L2View,
    p: Seq<char>,
)
    requires
        crate::snoopsec::is_arp_redirect(r, vlan, config, view),
    ensures
        ({
            let carries = view.vlan_ports@.dom().contains(vlan) && view.vlan_ports@[vlan]@.dom().contains(
                p,
            );
            let named = config.arp_trusted@.dom().contains(p) && !view.po_members@.dom().contains(p);
            let member = exists|name: Seq<char>|
                config.arp_trusted@.dom().contains(name) && #[trigger] view.po_members@.dom().contains(
                    name,
                ) && view.po_members@[name]@.dom().contains(p);
            &&& r.0 == vlan
            &&& r.1.contains(p) <==> carries && !named && !member
        }),
{
    let set = config.arp_trusted@.dom();
    let trusted = crate::snoopsec::expanded(view, set);
    lemma_listed(
        r.1,
        crate::ordmap::picked_names(view.carriers(vlan), trusted, false),
        p,
    );
    if trusted.contains(p) {
        let name = choose|name: Seq<char>| #[trigger]
            set.contains(name) && crate::snoopsec::stands_for(view, name, p);
        if view.po_members@.dom().contains(name) {
            assert(view.po_members@[name]@.dom().contains(p));
        }
    }
    if set.contains(p) && !view.po_members@.dom().contains(p) {
        assert(set.contains(p) && crate::snoopsec::stands_for(view, p, p));
    }
    if exists|name: Seq<char>|
        set.contains(name) && #[trigger] view.po_members@.dom().contains(name)
            && view.po_members@[name]@.dom().contains(p) {
        let name = choose|name: Seq<char>|
            set.contains(name) && #[trigger] view.po_members@.dom().contains(name)
                && view.po_members@[name]@.dom().contains(p);
        assert(set.contains(name) && crate::snoopsec::stands_for(view, name, p));
    }
}

/// Leases run out at their moment and not before, and clearing one client
/// leaves the others.
pub proof fn lemma_leases_end(
    m: Map<(Seq<char>, u16), crate::snoopsec::DynamicBinding>,
    now: u64,
    mac: Seq<char>,
    k: (Seq<char>, u16),
)
    requires
        m.dom().contains(k),
    ensures
        ({
            let left = crate::ordmap::kept(m, crate::snoopsec::runs_on(now));
            let others = crate::ordmap::kept(m, crate::snoopsec::is_other(mac));
            &&& left.dom().contains(k) <==> m[k].expires_at > now
            &&& m[k].expires_at > now ==> left[k] == m[k]
            &&& others.dom().contains(k) <==> k.0 != mac
            &&& k.0 != mac ==> others[k] == m[k]
        }),
{
}

/// A row of `show ip dhcp snooping binding`: what the binding says, with the
/// seconds that are left of a lease.
pub proof fn lemma_bindings_are_shown(
    row: crate::snoopsec::BindingSnapshot,
    k: (String, u16),
    b: crate::snoopsec::DynamicBinding,
    s: crate::snoopsec::StaticBinding,
    now: u64,
)
    ensures
        crate::snoopsec::is_dynamic_row(row, (k, b), now) ==> row.mac@ == k.0@ && row.vlan == k.1
            && row.ip == b.ip && row.interface@ == b.interface@ && row.lease_secs is Some && (
        b.expires_at >= now ==> row.lease_secs->0 == b.expires_at - now) && (b.expires_at < now
            ==> row.lease_secs->0 == 0),
        crate::snoopsec::is_static_row(row, (k, s)) ==> row.mac@ == k.0@ && row.vlan == k.1
            && row.ip == s.ip && row.interface@ == s.interface@ && row.lease_secs is None,
{
}

/// The rows are in the order of their VLANs, and in a VLAN in that of their
/// addresses; every row is there once.
pub proof fn lemma_rows_rise(s: Seq<crate::snoopsec::BindingSnapshot>)
    ensures
        ({
            let r = crate::snoopsec::sorted_rows(s);
            &&& r.to_multiset() == s.to_multiset()
            &&& forall|i: int, j: int|
                0 <= i < j < r.len() ==> (#[trigger] r[i]).vlan < (#[trigger] r[j]).vlan || (r[i].vlan
                    == r[j].vlan && r[i].ip.bits <= r[j].ip.bits)
        }),
    decreases s.len(),
{
    broadcast use vstd::seq_lib::group_to_multiset_ensures;

    if s.len() > 0 {
        lemma_rows_rise(s.drop_last());
        lemma_row_inserted(crate::snoopsec::sorted_rows(s.drop_last()), s.last());
        assert(s =~= s.drop_last().push(s.last()));
        assert(crate::snoopsec::sorted_rows(s).to_multiset() =~= s.to_multiset());
    }
}

proof fn lemma_row_inserted(
    s: Seq<crate::snoopsec::BindingSnapshot>,
    row: crate::snoopsec::BindingSnapshot,
)
    requires
        forall|i: int, j: int|
            0 <= i < j < s.len() ==> (#[trigger] s[i]).vlan < (#[trigger] s[j]).vlan || (s[i].vlan
                == s[j].vlan && s[i].ip.bits <= s[j].ip.bits),
    ensures
        ({
            let r = crate::snoopsec::insert_row(s, row);
            &&& r.len() == s.len() + 1
            &&& r.to_multiset() == s.to_multiset().insert(row)
            &&& r.last() == row || (s.len() > 0 && r.last() == s.last())
            &&& forall|i: int, j: int|
                0 <= i < j < r.len() ==> (#[trigger] r[i]).vlan < (#[trigger] r[j]).vlan || (r[i].vlan
                    == r[j].vlan && r[i].ip.bits <= r[j].ip.bits)
            &&& forall|i: int|
                0 <= i < r.len() ==> (#[trigger] r[i]) == row || s.contains(r[i])
        }),
    decreases s.len(),
{
    broadcast use vstd::seq_lib::group_to_multiset_ensures;

    let r = crate::snoopsec::insert_row(s, row);
    if s.len() == 0 || !crate::snoopsec::row_before(row, s.last()) {
        assert forall|i: int| 0 <= i < r.len() implies (#[trigger] r[i]) == row || s.contains(
            r[i],
        ) by {
            if i < s.len() {
                assert(s[i] == r[i]);
            }
        }
        assert forall|i: int, j: int| 0 <= i < j < r.len() implies (#[trigger] r[i]).vlan < (
        #[trigger] r[j]).vlan || (r[i].vlan == r[j].vlan && r[i].ip.bits <= r[j].ip.bits) by {
            if j == s.len() && i < s.len() - 1 {
                assert(s[i].vlan < s[s.len() - 1].vlan || (s[i].vlan == s[s.len() - 1].vlan
                    && s[i].ip.bits <= s[s.len() - 1].ip.bits));
            }
        }
    } else {
        let front = s.drop_last();
        lemma_row_inserted(front, row);
        let t = crate::snoopsec::insert_row(front, row);
        assert(s =~= front.push(s.last()));
        assert(r =~= t.push(s.last()));
        assert(r.to_multiset() =~= s.to_multiset().insert(row));
        assert forall|i: int| 0 <= i < r.len() implies (#[trigger] r[i]) == row || s.contains(
            r[i],
        ) by {
            if i < t.len() {
                assert(r[i] == t[i]);
                if t[i] != row {
                    let k = choose|k: int| 0 <= k < front.len() && front[k] == t[i];
                    assert(s[k] == r[i]);
                }
            } else {
                assert(s[s.len() - 1] == r[i]);
            }
        }
        assert forall|i: int, j: int| 0 <= i < j < r.len() implies (#[trigger] r[i]).vlan < (
        #[trigger] r[j]).vlan || (r[i].vlan == r[j].vlan && r[i].ip.bits <= r[j].ip.bits) by {
            if j == t.len() {
                assert(r[i] == t[i]);
                if t[i] != row {
                    let k = choose|k: int| 0 <= k < front.len() && front[k] == t[i];
                    assert(s[k] == t[i]);
                    assert(k < s.len() - 1);
                }
            } else {
                assert(r[i] == t[i] && r[j] == t[j]);
            }
        }
    }
}

} // verus!
