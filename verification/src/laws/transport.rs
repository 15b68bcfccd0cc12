//! Laws of handing out trapped frames.

use vstd::prelude::*;

use crate::transport::Sink;

verus! {

/// An IPv4 packet with an IGMP message, or an IPv6 packet with ICMPv6 or
/// hop-by-hop options.
pub open spec fn multicast_talk(f: Seq<u8>) -> bool {
    ||| f[12] == 8 && f[13] == 0 && f.len() > 23 && f[23] == 2
    ||| f[12] == 0x86 && f[13] == 0xdd && f.len() > 20 && (f[20] == 58 || f[20] == 0)
}

/// An ARP packet, or an IPv4 packet with a UDP datagram to a DHCP port.
pub open spec fn station_talk(f: Seq<u8>) -> bool {
    ||| f[12] == 8 && f[13] == 6
    ||| f[12] == 8 && f[13] == 0 && f.len() >= 34 && f[14] / 16 == 4 && f[23] == 17 && ({
        let at = 14 + (f[14] % 16) * 4;
        f.len() >= at + 4 && (f[at + 2] * 256 + f[at + 3] == 67 || f[at + 2] * 256 + f[at + 3]
            == 68)
    })
}

/// Every frame goes to one engine: by the slow protocols' type to LACP, by its
/// type to LLDP, by the bridge group address to spanning tree, multicast talk
/// to snooping, ARP and DHCP to the guard, the latter two in the port's VLAN,
/// VLAN 1 where none is known. Anything else goes to nobody.
pub proof fn lemma_frames_go_to_one(
    pvids: Map<Seq<char>, u16>,
    port: Seq<char>,
    f: Seq<u8>,
)
    ensures
        ({
            let r = crate::transport::sink_of(pvids, port, f);
            let vlan: u16 = if pvids.dom().contains(port) {
                pvids[port]
            } else {
                1
            };
            let lacp = f[12] == 0x88 && f[13] == 0x09;
            let lldp = f[12] == 0x88 && f[13] == 0xcc;
            let bridge = f[0] == 1 && f[1] == 0x80 && f[2] == 0xc2 && f[3] == 0 && f[4] == 0 && f[5]
                == 0;
            &&& f.len() < 14 ==> r == Sink::Nobody
            &&& f.len() >= 14 ==> {
                &&& r == Sink::Lacp <==> lacp
                &&& r == Sink::Lldp <==> lldp
                &&& r == Sink::Stp <==> !lacp && !lldp && bridge
                &&& (!lacp && !lldp && !bridge && multicast_talk(f)) ==> r == (Sink::Snoop {
                    ethertype: (f[12] * 256 + f[13]) as u16,
                    vlan,
                })
                &&& (!lacp && !lldp && !bridge && !multicast_talk(f) && station_talk(f)) ==> r == (
                Sink::Snoopsec { vlan })
                &&& (!lacp && !lldp && !bridge && !multicast_talk(f) && !station_talk(f)) ==> r
                    == Sink::Nobody
            }
        }),
{
    if f.len() >= 14 {
        let to = seq![0x01u8, 0x80u8, 0xc2u8, 0x00u8, 0x00u8, 0x00u8];
        assert(crate::stp::STP_DST@ =~= to);
        let t = f.take(6);
        assert(t[0] == f[0] && t[1] == f[1] && t[2] == f[2] && t[3] == f[3] && t[4] == f[4] && t[5]
            == f[5]);
        if f[0] == 1 && f[1] == 0x80 && f[2] == 0xc2 && f[3] == 0 && f[4] == 0 && f[5] == 0 {
            assert(t =~= to);
        }
    }
}

/// A port is listened on where an engine knows it: a member of a port channel,
/// a spanning tree port, an LLDP port or a switched port.
pub proof fn lemma_ports_are_listened_on(
    lags: Seq<crate::lacp::LagSnapshot>,
    stp_ports: Seq<crate::stp::PortSnapshot>,
    lldp_ports: Seq<crate::lldp::PortSnapshot>,
    pvids: Map<Seq<char>, u16>,
    port: Seq<char>,
)
    ensures
        crate::transport::wants(lags, stp_ports, lldp_ports, pvids, port) <==> {
            ||| pvids.dom().contains(port)
            ||| exists|i: int| 0 <= i < stp_ports.len() && (#[trigger] stp_ports[i]).port@ == port
            ||| exists|i: int| 0 <= i < lldp_ports.len() && (#[trigger] lldp_ports[i]).port@ == port
            ||| exists|i: int, k: int|
                0 <= i < lags.len() && 0 <= k < lags[i].members@.len() && (
                #[trigger] lags[i].members@[k]).port@ == port
        },
{
    if crate::transport::lag_port(lags, lags.len() as int, port) {
        let i = choose|i: int|
            0 <= i < lags.len() && crate::transport::member_ports(
                (#[trigger] lags[i]).members@,
                port,
            );
        let k = choose|k: int|
            0 <= k < lags[i].members@.len() && (#[trigger] lags[i].members@[k]).port@ == port;
        assert(lags[i].members@[k].port@ == port);
    }
    if exists|i: int, k: int|
        0 <= i < lags.len() && 0 <= k < lags[i].members@.len() && (
        #[trigger] lags[i].members@[k]).port@ == port {
        let (i, k) = choose|i: int, k: int|
            0 <= i < lags.len() && 0 <= k < lags[i].members@.len() && (
            #[trigger] lags[i].members@[k]).port@ == port;
        assert(crate::transport::member_ports(lags[i].members@, port));
    }
}

} // verus!
