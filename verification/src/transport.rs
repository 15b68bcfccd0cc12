//! Protocol-frame transport over the ports' hostif netdevs: which frame goes
//! to which engine, and which ports need a socket.
//!
//! syncd creates one kernel netdev per front-panel port (named after
//! it) and installs the SAI hostif traps that punt protocol frames;
//! orch opens an AF_PACKET socket bound to each port netdev and
//! reads/writes whole Ethernet frames.
//!
//! One socket per port carries every protocol: received frames are
//! dispatched by type (slow-protocols ethertype -> LACP, the STP
//! multicast -> STP, the LLDP ethertype -> LLDP, IGMP/MLD -> the
//! snooping engines, classified to a VLAN by the ingress port's
//! untagged VLAN since hostif delivery strips tags).

use vstd::prelude::*;

use crate::bytes::{read16, read_mac, same_mac};
use crate::lacp;
use crate::lacp::LACP_ETHERTYPE;
use crate::lldp;
use crate::lldp::LLDP_ETHERTYPE;
use crate::ordmap::{OrdMap, TextSet};
use crate::stp;
use crate::stp::STP_DST;

verus! {

/// Where a received frame goes.
#[derive(Debug, Clone, Copy, PartialEq, Eq, Structural)]
pub enum Sink {
    Lacp,
    Lldp,
    Stp,
    /// The snooping engine of an ethertype (0x0800 carrying IGMP, 0x86dd
    /// carrying ICMPv6), with the VLAN.
    Snoop { ethertype: u16, vlan: u16 },
    /// The DHCP-snooping and ARP-inspection engine, with the VLAN.
    Snoopsec { vlan: u16 },
    /// No engine wants it.
    Nobody,
}

/// Is a frame snooping-relevant for its ethertype? IGMP inside
/// IPv4; ICMPv6 or hop-by-hop inside IPv6.
pub open spec fn is_snooped(ethertype: u16, frame: Seq<u8>) -> bool {
    if ethertype == 0x0800 {
        frame.len() > 23 && frame[23] == 2
    } else if ethertype == 0x86dd {
        frame.len() > 20 && (frame[20] == 58 || frame[20] == 0)
    } else {
        false
    }
}

/// Is this frame snooping-relevant for its ethertype? (A cheap pre-filter so
/// the engines never see bulk traffic.)
pub fn snoop_relevant(ethertype: u16, frame: &[u8]) -> (r: bool)
    ensures
        r == is_snooped(ethertype, frame@),
{
    let len: usize = frame.len();
    if ethertype == 0x0800 {
        len > 23 && frame[23] == 2
    } else if ethertype == 0x86dd {
        len > 20 && (frame[20] == 58 || frame[20] == 0)
    } else {
        false
    }
}

/// How long the IPv4 header of a frame is, in bytes.
pub open spec fn header_len(frame: Seq<u8>) -> int {
    (frame[14] % 16) * 4
}

/// Is a frame ARP, or DHCP inside IPv4/UDP? DHCP is what goes to UDP port 67
/// or 68.
pub open spec fn is_secured(ethertype: u16, frame: Seq<u8>) -> bool {
    if ethertype == 0x0806 {
        true
    } else if ethertype == 0x0800 {
        &&& frame.len() >= 34
        &&& frame[14] / 16 == 4
        &&& frame[23] == 17
        &&& frame.len() >= 14 + header_len(frame) + 4
        &&& {
            let port = crate::bytes::word16(frame, 14 + header_len(frame) + 2);
            port == 67 || port == 68
        }
    } else {
        false
    }
}

/// Is this frame ARP, or DHCP inside IPv4/UDP? (The security engine's
/// pre-filter; the CoPP arp/dhcp classes bound the rate upstream.)
pub fn snoopsec_relevant(ethertype: u16, frame: &[u8]) -> (r: bool)
    ensures
        r == is_secured(ethertype, frame@),
{
    let len: usize = frame.len();
    if ethertype == 0x0806 {
        return true;
    }
    if ethertype != 0x0800 {
        return false;
    }
    if len < 34 || frame[14] / 16 != 4 || frame[23] != 17 {
        return false;
    }
    let ihl: usize = (frame[14] % 16) as usize * 4;
    if len < 14 + ihl + 4 {
        return false;
    }
    let port: u16 = read16(frame, 14 + ihl + 2);
    port == 67 || port == 68
}

/// The untagged VLAN of a port; 1 where it is not known.
pub open spec fn pvid_of(pvids: Map<Seq<char>, u16>, port: Seq<char>) -> u16 {
    if pvids.dom().contains(port) {
        pvids[port]
    } else {
        1
    }
}

/// Where a frame goes that was received on a port.
pub open spec fn sink_of(
    pvids: Map<Seq<char>, u16>,
    port: Seq<char>,
    frame: Seq<u8>,
) -> Sink {
    let ethertype = crate::bytes::word16(frame, 12);
    if frame.len() < 14 {
        Sink::Nobody
    } else if ethertype == LACP_ETHERTYPE {
        Sink::Lacp
    } else if ethertype == LLDP_ETHERTYPE {
        Sink::Lldp
    } else if frame.take(6) == STP_DST@ {
        Sink::Stp
    } else if is_snooped(ethertype, frame) {
        Sink::Snoop { ethertype, vlan: pvid_of(pvids, port) }
    } else if is_secured(ethertype, frame) {
        Sink::Snoopsec { vlan: pvid_of(pvids, port) }
    } else {
        Sink::Nobody
    }
}

/// The transport's state: the untagged VLANs, and the ports that have a
/// socket.
pub struct Transport {
    pub pvids: OrdMap<String, u16>,
    pub attached: TextSet,
}

/// The untagged-VLAN map used to classify snooped frames.
pub fn set_pvids(transport: &mut Transport, map: OrdMap<String, u16>)
    requires
        old(transport).wf(),
        map.wf(),
    ensures
        final(transport).wf(),
        final(transport).pvids == map,
        final(transport).attached == old(transport).attached,
{
    transport.pvids = map;
}

/// Is a port among some members?
pub open spec fn member_ports(members: Seq<lacp::MemberSnapshot>, port: Seq<char>) -> bool {
    exists|i: int| 0 <= i < members.len() && (#[trigger] members[i]).port@ == port
}

/// Is a port a member of one of the first `n` link aggregation groups?
pub open spec fn lag_port(lags: Seq<lacp::LagSnapshot>, n: int, port: Seq<char>) -> bool {
    exists|i: int| 0 <= i < n && member_ports((#[trigger] lags[i]).members@, port)
}

pub open spec fn stp_port(ports: Seq<stp::PortSnapshot>, n: int, port: Seq<char>) -> bool {
    exists|i: int| 0 <= i < n && (#[trigger] ports[i]).port@ == port
}

pub open spec fn lldp_port(ports: Seq<lldp::PortSnapshot>, n: int, port: Seq<char>) -> bool {
    exists|i: int| 0 <= i < n && (#[trigger] ports[i]).port@ == port
}

/// Does a port need a socket? STP wants every port it runs on, LACP its member
/// ports, LLDP its ports; snooping listens wherever an untagged VLAN is known.
pub open spec fn wants(
    lags: Seq<lacp::LagSnapshot>,
    stp_ports: Seq<stp::PortSnapshot>,
    lldp_ports: Seq<lldp::PortSnapshot>,
    pvids: Map<Seq<char>, u16>,
    port: Seq<char>,
) -> bool {
    ||| lag_port(lags, lags.len() as int, port)
    ||| stp_port(stp_ports, stp_ports.len() as int, port)
    ||| lldp_port(lldp_ports, lldp_ports.len() as int, port)
    ||| pvids.dom().contains(port)
}

fn add_members(set: &mut TextSet, members: &Vec<lacp::MemberSnapshot>)
    requires
        old(set).wf(),
    ensures
        final(set).wf(),
        forall|port: Seq<char>| #[trigger]
            final(set)@.dom().contains(port) <==> old(set)@.dom().contains(port) || member_ports(
                members@,
                port,
            ),
{
    let ghost before = set@.dom();
    let mut i: usize = 0;
    while i < members.len()
        invariant
            i <= members@.len(),
            set.wf(),
            forall|port: Seq<char>| #[trigger]
                set@.dom().contains(port) <==> before.contains(port) || (exists|j: int|
                    0 <= j < i && (#[trigger] members@[j]).port@ == port),
        decreases members@.len() - i,
    {
        let ghost had = set@.dom();
        set.insert(members[i].port.clone(), ());
        proof {
            let name = members@[i as int].port@;
            assert forall|port: Seq<char>| #[trigger]
                set@.dom().contains(port) <==> before.contains(port) || (exists|j: int|
                    0 <= j < i + 1 && (#[trigger] members@[j]).port@ == port) by {
                assert(set@.dom().contains(port) <==> had.contains(port) || port == name);
                if had.contains(port) && !before.contains(port) {
                    let j = choose|j: int| 0 <= j < i && (#[trigger] members@[j]).port@ == port;
                    assert(members@[j].port@ == port);
                }
            }
        }
        i = i + 1;
    }
}

/// What changes at the sockets.
#[derive(Debug)]
pub struct Plan {
    /// Ports whose socket is to be closed.
    pub detach: Vec<String>,
    /// Ports that need a socket and have none.
    pub attach: Vec<String>,
}

impl Transport {
    pub open spec fn wf(&self) -> bool {
        self.pvids.wf() && self.attached.wf()
    }

    pub fn new() -> (r: Transport)
        ensures
            r.wf(),
            r.pvids@ == Map::<Seq<char>, u16>::empty(),
            r.attached@ == Map::<Seq<char>, ()>::empty(),
    {
        Transport { pvids: OrdMap::new(), attached: OrdMap::new() }
    }

    /// The untagged VLAN of a port.
    pub fn pvid(&self, port: &str) -> (r: u16)
        requires
            self.wf(),
        ensures
            r == pvid_of(self.pvids@, port@),
    {
        let name = port.to_owned();
        match self.pvids.get(&name) {
            Some(vlan) => *vlan,
            None => 1,
        }
    }

    /// Where a frame goes that was received on a port.
    pub fn dispatch(&self, port: &str, frame: &[u8]) -> (r: Sink)
        requires
            self.wf(),
        ensures
            r == sink_of(self.pvids@, port@, frame@),
    {
        if frame.len() < 14 {
            return Sink::Nobody;
        }
        let ethertype: u16 = read16(frame, 12);
        let dst: [u8; 6] = read_mac(frame, 0);
        assert(dst@ =~= frame@.take(6));
        if ethertype == LACP_ETHERTYPE {
            Sink::Lacp
        } else if ethertype == LLDP_ETHERTYPE {
            Sink::Lldp
        } else if same_mac(dst, STP_DST) {
            Sink::Stp
        } else if snoop_relevant(ethertype, frame) {
            Sink::Snoop { ethertype, vlan: self.pvid(port) }
        } else if snoopsec_relevant(ethertype, frame) {
            Sink::Snoopsec { vlan: self.pvid(port) }
        } else {
            Sink::Nobody
        }
    }

    /// The ports that need a socket.
    pub fn wanted(
        &self,
        lags: &Vec<lacp::LagSnapshot>,
        stp_ports: &Vec<stp::PortSnapshot>,
        lldp_ports: &Vec<lldp::PortSnapshot>,
    ) -> (r: TextSet)
        requires
            self.wf(),
        ensures
            r.wf(),
            forall|port: Seq<char>| #[trigger]
                r@.dom().contains(port) <==> wants(
                    lags@,
                    stp_ports@,
                    lldp_ports@,
                    self.pvids@,
                    port,
                ),
    {
        // Snooping listens wherever a PVID is known (every bridged port).
        let mut set = self.pvids.key_set();
        let mut i: usize = 0;
        while i < lags.len()
            invariant
                i <= lags@.len(),
                set.wf(),
                forall|port: Seq<char>| #[trigger]
                    set@.dom().contains(port) <==> self.pvids@.dom().contains(port) || lag_port(
                        lags@,
                        i as int,
                        port,
                    ),
            decreases lags@.len() - i,
        {
            let ghost had = set@.dom();
            add_members(&mut set, &lags[i].members);
            proof {
                assert forall|port: Seq<char>| #[trigger]
                    set@.dom().contains(port) <==> self.pvids@.dom().contains(port) || lag_port(
                        lags@,
                        i + 1,
                        port,
                    ) by {
                    assert(set@.dom().contains(port) <==> had.contains(port) || member_ports(
                        lags@[i as int].members@,
                        port,
                    ));
                    if lag_port(lags@, i as int, port) {
                        let j = choose|j: int|
                            0 <= j < i && member_ports((#[trigger] lags@[j]).members@, port);
                        assert(member_ports(lags@[j].members@, port));
                    }
                }
            }
            i = i + 1;
        }
        let ghost with_lags = set@.dom();
        let mut k: usize = 0;
        while k < stp_ports.len()
            invariant
                k <= stp_ports@.len(),
                set.wf(),
                forall|port: Seq<char>| #[trigger]
                    set@.dom().contains(port) <==> with_lags.contains(port) || stp_port(
                        stp_ports@,
                        k as int,
                        port,
                    ),
            decreases stp_ports@.len() - k,
        {
            let ghost had = set@.dom();
            set.insert(stp_ports[k].port.clone(), ());
            proof {
                assert forall|port: Seq<char>| #[trigger]
                    set@.dom().contains(port) <==> with_lags.contains(port) || stp_port(
                        stp_ports@,
                        k + 1,
                        port,
                    ) by {
                    assert(set@.dom().contains(port) <==> had.contains(port) || port
                        == stp_ports@[k as int].port@);
                    if stp_port(stp_ports@, k as int, port) {
                        let j = choose|j: int|
                            0 <= j < k && (#[trigger] stp_ports@[j]).port@ == port;
                        assert(stp_ports@[j].port@ == port);
                    }
                }
            }
            k = k + 1;
        }
        // LLDP runs on every front-panel port by default, so its port
        // list is usually the widest of the three.
        let ghost with_stp = set@.dom();
        let mut n: usize = 0;
        while n < lldp_ports.len()
            invariant
                n <= lldp_ports@.len(),
                set.wf(),
                forall|port: Seq<char>| #[trigger]
                    set@.dom().contains(port) <==> with_stp.contains(port) || lldp_port(
                        lldp_ports@,
                        n as int,
                        port,
                    ),
            decreases lldp_ports@.len() - n,
        {
            let ghost had = set@.dom();
            set.insert(lldp_ports[n].port.clone(), ());
            proof {
                assert forall|port: Seq<char>| #[trigger]
                    set@.dom().contains(port) <==> with_stp.contains(port) || lldp_port(
                        lldp_ports@,
                        n + 1,
                        port,
                    ) by {
                    assert(set@.dom().contains(port) <==> had.contains(port) || port
                        == lldp_ports@[n as int].port@);
                    if lldp_port(lldp_ports@, n as int, port) {
                        let j = choose|j: int|
                            0 <= j < n && (#[trigger] lldp_ports@[j]).port@ == port;
                        assert(lldp_ports@[j].port@ == port);
                    }
                }
            }
            n = n + 1;
        }
        set
    }

    /// Keep the ports' sockets attached: close those that nothing wants any
    /// more, and say which are to be opened, in order. A port counts as
    /// attached once `opened` says so.
    pub fn plan(&mut self, wanted: &TextSet) -> (r: Plan)
        requires
            old(self).wf(),
            wanted.wf(),
        ensures
            final(self).wf(),
            final(self).pvids == old(self).pvids,
            final(self).attached@.dom() == crate::ordmap::picked_names(
                old(self).attached@.dom(),
                wanted@.dom(),
                true,
            ),
            crate::ordmap::lists(
                r.detach.deep_view(),
                crate::ordmap::picked_names(old(self).attached@.dom(), wanted@.dom(), false),
            ),
            crate::ordmap::lists(
                r.attach.deep_view(),
                crate::ordmap::picked_names(wanted@.dom(), old(self).attached@.dom(), false),
            ),
    {
        let detach: Vec<String> = self.attached.picked(wanted, false).names();
        let attach: Vec<String> = wanted.picked(&self.attached, false).names();
        self.attached = self.attached.picked(wanted, true);
        Plan { detach, attach }
    }

    /// A port's socket is open.
    pub fn opened(&mut self, port: &str)
        requires
            old(self).wf(),
        ensures
            final(self).wf(),
            final(self).pvids == old(self).pvids,
            final(self).attached@.dom() == old(self).attached@.dom().insert(port@),
    {
        self.attached.insert(port.to_owned(), ());
    }

    /// Does a port still have its socket?
    pub fn is_attached(&self, port: &str) -> (r: bool)
        requires
            self.wf(),
        ensures
            r == self.attached@.dom().contains(port@),
    {
        self.attached.has(port)
    }
}

// ------------------------------------------------------------------ laws

/// A plan brings the sockets to what is wanted: once its ports are closed and
/// opened, exactly the wanted ports are attached, and no port is both closed
/// and opened.
pub proof fn lemma_plan_converges(
    attached: Set<Seq<char>>,
    wanted: Set<Seq<char>>,
    detach: Seq<Seq<char>>,
    attach: Seq<Seq<char>>,
)
    requires
        crate::ordmap::lists(detach, crate::ordmap::picked_names(attached, wanted, false)),
        crate::ordmap::lists(attach, crate::ordmap::picked_names(wanted, attached, false)),
    ensures
        crate::ordmap::picked_names(attached, wanted, true).union(
            crate::ordmap::name_set(attach),
        ) == wanted,
        forall|port: Seq<char>| !(detach.contains(port) && attach.contains(port)),
{
    assert(crate::ordmap::picked_names(attached, wanted, true).union(
        crate::ordmap::name_set(attach),
    ) =~= wanted);
    assert forall|port: Seq<char>| !(detach.contains(port) && attach.contains(port)) by {
        assert(detach.contains(port) == crate::ordmap::name_set(detach).contains(port));
        assert(attach.contains(port) == crate::ordmap::name_set(attach).contains(port));
    }
}

/// The transport hands each engine only frames of its kind: what reaches the
/// LACP and LLDP engines carries their ethertype, what reaches a snooping
/// engine carries that engine's, and what reaches the security engine is ARP
/// or IPv4.
pub proof fn lemma_dispatch_by_type(
    pvids: Map<Seq<char>, u16>,
    port: Seq<char>,
    frame: Seq<u8>,
)
    ensures
        match sink_of(pvids, port, frame) {
            Sink::Lacp => crate::bytes::word16(frame, 12) == LACP_ETHERTYPE,
            Sink::Lldp => crate::bytes::word16(frame, 12) == LLDP_ETHERTYPE,
            Sink::Stp => frame.take(6) == STP_DST@,
            Sink::Snoop { ethertype, .. } => crate::bytes::word16(frame, 12) == ethertype && (
            ethertype == 0x0800 || ethertype == 0x86dd),
            Sink::Snoopsec { .. } => crate::bytes::word16(frame, 12) == 0x0806
                || crate::bytes::word16(frame, 12) == 0x0800,
            Sink::Nobody => true,
        },
{
}

} // verus!
