//! The spanning-tree engine: one port-role/state machine shared by
//! `mstp` and `rstp` (rapid-pvst is explicitly deferred and rejected at
//! parse time).
//!
//! Config pushes and link events in, BPDUs in/out, and port state updates
//! + BPDU-guard errdisable events out.
//!
//! Deliberate simplifications, recorded here:
//! - one CIST state machine drives every MST instance's port states
//!   (the config surface has no per-instance priorities or costs, so
//!   the instances could never diverge anyway; the MST region name/
//!   revision/mapping still programs the hardware VLAN->instance
//!   tables and renders in `show spanning-tree mst configuration`);
//! - transitions are timer-based (discarding -> learning ->
//!   forwarding after forward-delay each) rather than RSTP
//!   proposal/agreement handshakes; portfast (edge) ports skip
//!   straight to forwarding.

use vstd::prelude::*;

use crate::bytes::{push_all, push_be16, push_be32, read16, read32, read_mac};
use crate::clock::elapsed;
use crate::interfaces::port_number_of;
use crate::ordmap::{Key, OrdMap};

verus! {

/// The STP multicast destination.
pub const STP_DST: [u8; 6] = [0x01, 0x80, 0xc2, 0x00, 0x00, 0x00];

#[derive(Debug, Clone, Copy, PartialEq, Eq, Structural)]
pub enum Mode {
    Mstp,
    Rstp,
    /// No spanning tree (`none`).
    Off,
}

impl Default for Mode {
    fn default() -> (r: Mode)
        ensures
            r == Mode::Mstp,
    {
        Mode::Mstp
    }
}

impl Mode {
    pub fn word(self) -> (r: &'static str)
        ensures
            r@ == (match self {
                Mode::Mstp => "mstp"@,
                Mode::Rstp => "rstp"@,
                Mode::Off => "none"@,
            }),
    {
        match self {
            Mode::Mstp => "mstp",
            Mode::Rstp => "rstp",
            Mode::Off => "none",
        }
    }
}

#[derive(Debug, Clone, Copy, PartialEq, Eq)]
pub struct PortConfig {
    pub portfast: bool,
    pub bpduguard: bool,
    /// None = derived from link speed (20e9 / kbps).
    pub cost: Option<u32>,
    /// Multiple of 16; default 128.
    pub priority: u8,
}

/// What a port without configuration runs with.
pub open spec fn default_port() -> PortConfig {
    PortConfig { portfast: false, bpduguard: false, cost: None, priority: 0 }
}

impl Default for PortConfig {
    fn default() -> (r: PortConfig)
        ensures
            r == default_port(),
    {
        PortConfig { portfast: false, bpduguard: false, cost: None, priority: 0 }
    }
}

pub struct Config {
    pub mode: Mode,
    /// Multiple of 4096; default 32768.
    pub priority: u16,
    pub hello_time: u8,
    pub max_age: u8,
    pub forward_time: u8,
    pub mst_name: String,
    pub mst_revision: u16,
    /// MST instance -> mapped VLANs.
    pub instances: OrdMap<u8, Vec<u16>>,
    /// Per-port config (ports without an entry run defaults).
    pub ports: OrdMap<String, PortConfig>,
}

impl Config {
    pub open spec fn wf(&self) -> bool {
        self.instances.wf() && self.ports.wf()
    }
}

impl Default for Config {
    fn default() -> (r: Config)
        ensures
            r.wf(),
            r.mode == Mode::Mstp,
            r.priority == 0,
            r.hello_time == 0,
            r.max_age == 0,
            r.forward_time == 0,
            r.mst_name@.len() == 0,
            r.mst_revision == 0,
            r.instances.entries@.len() == 0,
            r.ports.entries@.len() == 0,
    {
        Config {
            mode: Mode::Mstp,
            priority: 0,
            hello_time: 0,
            max_age: 0,
            forward_time: 0,
            mst_name: String::new(),
            mst_revision: 0,
            instances: OrdMap::new(),
            ports: OrdMap::new(),
        }
    }
}

#[derive(Debug, Clone)]
pub struct LinkEvent {
    pub port: String,
    pub up: bool,
    /// Current speed in Mb/s (for the default path cost); 0 = unknown.
    pub speed_mbps: u32,
}

#[derive(Debug, Clone, Copy, PartialEq, Eq, Structural)]
pub enum Role {
    Designated,
    Root,
    Alternate,
    Disabled,
}

impl Role {
    pub fn word(self) -> (r: &'static str)
        ensures
            r@ == (match self {
                Role::Designated => "designated"@,
                Role::Root => "root"@,
                Role::Alternate => "alternate"@,
                Role::Disabled => "disabled"@,
            }),
    {
        match self {
            Role::Designated => "designated",
            Role::Root => "root",
            Role::Alternate => "alternate",
            Role::Disabled => "disabled",
        }
    }
}

#[derive(Debug, Clone, Copy, PartialEq, Eq, Structural)]
pub enum PortState {
    Discarding,
    Learning,
    Forwarding,
}

impl PortState {
    /// The state as the switch hardware has it: what discards, blocks.
    pub fn hardware_word(self) -> (r: &'static str)
        ensures
            r@ == (match self {
                PortState::Discarding => "blocking"@,
                PortState::Learning => "learning"@,
                PortState::Forwarding => "forwarding"@,
            }),
    {
        match self {
            PortState::Discarding => "blocking",
            PortState::Learning => "learning",
            PortState::Forwarding => "forwarding",
        }
    }

    pub fn word(self) -> (r: &'static str)
        ensures
            r@ == (match self {
                PortState::Discarding => "discarding"@,
                PortState::Learning => "learning"@,
                PortState::Forwarding => "forwarding"@,
            }),
    {
        match self {
            PortState::Discarding => "discarding",
            PortState::Learning => "learning",
            PortState::Forwarding => "forwarding",
        }
    }
}

/// A port's forwarding state changed (push to syncd for every
/// instance).
#[derive(Debug, Clone, PartialEq, Eq)]
pub struct StateUpdate {
    pub port: String,
    pub state: PortState,
}

/// BPDU guard tripped: errdisable the port.
#[derive(Debug, Clone, PartialEq, Eq)]
pub struct ErrdisableEvent {
    pub port: String,
    pub reason: &'static str,
}

// -------------------------------------------------------- bridge identifiers

/// A bridge identifier: (priority, MAC), ordered exactly like the wire
/// encoding compares.
#[derive(Debug, Clone, Copy, PartialEq, Eq, PartialOrd, Ord)]
pub struct BridgeId {
    pub priority: u16,
    pub mac: [u8; 6],
}

/// The priority vector a BPDU carries.
#[derive(Debug, Clone, Copy, PartialEq, Eq, PartialOrd, Ord)]
pub struct PriorityVector {
    pub root: BridgeId,
    pub cost: u32,
    pub bridge: BridgeId,
    pub port_id: u16,
}

/// The identifier as one number: the wire encoding read in network byte
/// order.
pub open spec fn id_value(id: BridgeId) -> int {
    id.priority * 0x1_0000_0000_0000 + id.mac@[0] * 0x100_0000_0000 + id.mac@[1] * 0x1_0000_0000
        + id.mac@[2] * 0x100_0000 + id.mac@[3] * 0x1_0000 + id.mac@[4] * 0x100 + id.mac@[5]
}

impl BridgeId {
    /// The identifier as one number; a lower one is the better root.
    pub fn value(self) -> (r: u64)
        ensures
            r == id_value(self),
    {
        self.priority as u64 * 0x1_0000_0000_0000 + self.mac[0] as u64 * 0x100_0000_0000
            + self.mac[1] as u64 * 0x1_0000_0000 + self.mac[2] as u64 * 0x100_0000
            + self.mac[3] as u64 * 0x1_0000 + self.mac[4] as u64 * 0x100 + self.mac[5] as u64
    }
}

/// An identifier on the wire.
pub open spec fn id_bytes(id: BridgeId) -> Seq<u8> {
    crate::bytes::be16(id.priority) + id.mac@
}

/// Does a run of bytes compare below another of the same length? The first
/// byte that differs decides.
pub open spec fn bytes_below(a: Seq<u8>, b: Seq<u8>) -> bool {
    exists|i: int|
        0 <= i < a.len() && #[trigger] a[i] < b[i] && forall|j: int| 0 <= j < i ==> a[j] == b[j]
}

/// Bytes read as one number in network byte order.
pub open spec fn bytes_value(s: Seq<u8>) -> int
    decreases s.len(),
{
    if s.len() == 0 {
        0
    } else {
        bytes_value(s.drop_last()) * 0x100 + s.last()
    }
}

proof fn lemma_bytes_order(a: Seq<u8>, b: Seq<u8>)
    requires
        a.len() == b.len(),
    ensures
        bytes_below(a, b) <==> bytes_value(a) < bytes_value(b),
        a == b <==> bytes_value(a) == bytes_value(b),
    decreases a.len(),
{
    if a.len() == 0 {
        assert(a =~= b);
    } else {
        let x = a.drop_last();
        let y = b.drop_last();
        let n = a.len() - 1;
        lemma_bytes_order(x, y);
        assert(a =~= x.push(a.last()) && b =~= y.push(b.last()));
        if bytes_below(a, b) {
            let i = choose|i: int|
                0 <= i < a.len() && #[trigger] a[i] < b[i] && forall|j: int|
                    0 <= j < i ==> a[j] == b[j];
            if i < n {
                assert(x[i] < y[i]);
                assert forall|j: int| 0 <= j < i implies x[j] == y[j] by {
                    assert(a[j] == b[j]);
                }
                assert(bytes_below(x, y));
            } else {
                assert forall|j: int| 0 <= j < x.len() implies x[j] == y[j] by {
                    assert(a[j] == b[j]);
                }
                assert(x =~= y);
            }
        }
        if bytes_value(a) < bytes_value(b) {
            if bytes_below(x, y) {
                let i = choose|i: int|
                    0 <= i < x.len() && #[trigger] x[i] < y[i] && forall|j: int|
                        0 <= j < i ==> x[j] == y[j];
                assert(a[i] < b[i]);
                assert forall|j: int| 0 <= j < i implies a[j] == b[j] by {
                    assert(x[j] == y[j]);
                }
            } else {
                assert(x == y);
                assert(a[n] < b[n]);
                assert forall|j: int| 0 <= j < n implies a[j] == b[j] by {
                    assert(x[j] == y[j]);
                }
            }
        }
        if a == b {
            assert(x == y);
        }
    }
}

/// Bridge identifiers order like the wire: one is below another where its
/// wire encoding compares below, and two are the same where their encodings
/// are.
pub proof fn lemma_ids_order_like_the_wire(a: BridgeId, b: BridgeId)
    ensures
        id_value(a) < id_value(b) <==> bytes_below(id_bytes(a), id_bytes(b)),
        id_value(a) == id_value(b) <==> id_bytes(a) == id_bytes(b),
{
    lemma_id_value(a);
    lemma_id_value(b);
    lemma_bytes_order(id_bytes(a), id_bytes(b));
}

proof fn lemma_id_value(id: BridgeId)
    ensures
        bytes_value(id_bytes(id)) == id_value(id),
{
    let s = id_bytes(id);
    assert(s.len() == 8);
    let s7 = s.drop_last();
    let s6 = s7.drop_last();
    let s5 = s6.drop_last();
    let s4 = s5.drop_last();
    let s3 = s4.drop_last();
    let s2 = s3.drop_last();
    let s1 = s2.drop_last();
    assert(s1.drop_last() =~= Seq::<u8>::empty());
    assert(bytes_value(s1.drop_last()) == 0);
    assert(bytes_value(s1) == s[0]);
    assert(bytes_value(s2) == s[0] * 0x100 + s[1]);
    assert(bytes_value(s3) == bytes_value(s2) * 0x100 + s[2]);
    assert(bytes_value(s4) == bytes_value(s3) * 0x100 + s[3]);
    assert(bytes_value(s5) == bytes_value(s4) * 0x100 + s[4]);
    assert(bytes_value(s6) == bytes_value(s5) * 0x100 + s[5]);
    assert(bytes_value(s7) == bytes_value(s6) * 0x100 + s[6]);
    assert(bytes_value(s) == bytes_value(s7) * 0x100 + s[7]);
    assert(s[0] * 0x100 + s[1] == id.priority);
    assert(s[2] == id.mac@[0] && s[3] == id.mac@[1] && s[4] == id.mac@[2] && s[5] == id.mac@[3]
        && s[6] == id.mac@[4] && s[7] == id.mac@[5]);
}

// ----------------------------------------------------------------- frames

/// The parameters that every BPDU of a bridge carries.
pub open spec fn bpdu_body(
    rstp: bool,
    root: BridgeId,
    cost: u32,
    bridge: BridgeId,
    port_id: u16,
    hello: u8,
    max_age: u8,
    forward_delay: u8,
) -> Seq<u8> {
    let version: u8 = if rstp {
        2
    } else {
        0
    };
    seq![0u8, 0u8, version, version, 0u8] + id_bytes(root) + crate::bytes::be32(cost) + id_bytes(bridge) + crate::bytes::be16(
        port_id,
    ) + crate::bytes::be16(0) + seq![max_age, 0u8, hello, 0u8, forward_delay, 0u8] + (if rstp {
        seq![0u8]
    } else {
        Seq::empty()
    })
}

/// One BPDU as a whole LLC-framed Ethernet frame.
pub open spec fn bpdu_bytes(
    src_mac: Seq<u8>,
    rstp: bool,
    root: BridgeId,
    cost: u32,
    bridge: BridgeId,
    port_id: u16,
    hello: u8,
    max_age: u8,
    forward_delay: u8,
) -> Seq<u8> {
    let body = bpdu_body(rstp, root, cost, bridge, port_id, hello, max_age, forward_delay);
    STP_DST@ + src_mac + crate::bytes::be16((body.len() + 3) as u16) + seq![0x42u8, 0x42u8, 3u8] + body
}

fn push_id(out: &mut Vec<u8>, id: BridgeId)
    ensures
        final(out)@ == old(out)@ + id_bytes(id),
{
    let ghost before = out@;
    push_be16(out, id.priority);
    push_all(out, id.mac.as_slice());
    assert(out@ =~= before + id_bytes(id));
}

/// Encode an RST BPDU (LLC-framed).
pub fn encode_bpdu(
    src_mac: [u8; 6],
    rstp: bool,
    root: BridgeId,
    cost: u32,
    bridge: BridgeId,
    port_id: u16,
    hello: u8,
    max_age: u8,
    forward_delay: u8,
) -> (frame: Vec<u8>)
    ensures
        frame@ == bpdu_bytes(
            src_mac@,
            rstp,
            root,
            cost,
            bridge,
            port_id,
            hello,
            max_age,
            forward_delay,
        ),
{
    let version: u8 = if rstp {
        2
    } else {
        0
    };
    let mut body: Vec<u8> = Vec::new();
    body.push(0);  // protocol id
    body.push(0);
    body.push(version);
    body.push(version);  // bpdu type
    body.push(0);  // flags (simplified: none)
    assert(body@ =~= seq![0u8, 0u8, version, version, 0u8]);
    push_id(&mut body, root);
    push_be32(&mut body, cost);
    push_id(&mut body, bridge);
    push_be16(&mut body, port_id);
    push_be16(&mut body, 0);  // message age
    let ghost head = body@;
    body.push(max_age);
    body.push(0);
    body.push(hello);
    body.push(0);
    body.push(forward_delay);
    body.push(0);
    assert(body@ =~= head + seq![max_age, 0u8, hello, 0u8, forward_delay, 0u8]);
    let ghost most = body@;
    if rstp {
        body.push(0);  // version 1 length
        assert(body@ =~= most + seq![0u8]);
    } else {
        assert(body@ =~= most + Seq::<u8>::empty());
    }
    let ghost whole = bpdu_body(rstp, root, cost, bridge, port_id, hello, max_age, forward_delay);
    assert(body@ == whole);
    assert(STP_DST@.len() == 6);
    assert(whole.len() <= 36);

    let mut frame: Vec<u8> = Vec::new();
    push_all(&mut frame, STP_DST.as_slice());
    push_all(&mut frame, src_mac.as_slice());
    push_be16(&mut frame, (body.len() + 3) as u16);  // 802.3 length
    let ghost eth = frame@;
    frame.push(0x42);  // LLC: STP SAP, UI
    frame.push(0x42);
    frame.push(3);
    assert(frame@ =~= eth + seq![0x42u8, 0x42u8, 3u8]);
    push_all(&mut frame, body.as_slice());
    frame
}

/// Is the frame a config or RST BPDU?
pub open spec fn is_bpdu(frame: Seq<u8>) -> bool {
    &&& frame.len() >= 48
    &&& frame[14] == 0x42
    &&& frame[15] == 0x42
    &&& frame[17] == 0
    &&& frame[18] == 0
    &&& (frame[20] == 0 || frame[20] == 2)
}

/// The vector is what a frame's BPDU carries.
pub open spec fn is_vector(v: PriorityVector, frame: Seq<u8>) -> bool {
    &&& v.root.priority == crate::bytes::word16(frame, 22)
    &&& v.root.mac@ == frame.subrange(24, 30)
    &&& v.cost == crate::bytes::word32(frame, 30)
    &&& v.bridge.priority == crate::bytes::word16(frame, 34)
    &&& v.bridge.mac@ == frame.subrange(36, 42)
    &&& v.port_id == crate::bytes::word16(frame, 42)
}

/// Decode a (config or RST) BPDU's priority vector; None when the frame
/// is not a spanning-tree BPDU.
pub fn decode_bpdu(frame: &[u8]) -> (r: Option<PriorityVector>)
    ensures
        match r {
            Some(v) => is_bpdu(frame@) && is_vector(v, frame@),
            None => !is_bpdu(frame@),
        },
{
    // LLC header at 14: DSAP/SSAP 0x42, UI.
    if frame.len() < 48 || frame[14] != 0x42 || frame[15] != 0x42 {
        return None;
    }
    if frame[17] != 0 || frame[18] != 0 {
        return None;
    }
    if frame[20] != 0x00 && frame[20] != 0x02 {
        return None;  // TCN or unknown
    }
    Some(
        PriorityVector {
            root: BridgeId { priority: read16(frame, 22), mac: read_mac(frame, 24) },
            cost: read32(frame, 30),
            bridge: BridgeId { priority: read16(frame, 34), mac: read_mac(frame, 36) },
            port_id: read16(frame, 42),
        },
    )
}

/// What one bridge encodes the other decodes: every BPDU reads back as the
/// vector it was made of.
pub proof fn lemma_bpdu_round_trips(
    src_mac: Seq<u8>,
    rstp: bool,
    root: BridgeId,
    cost: u32,
    bridge: BridgeId,
    port_id: u16,
    hello: u8,
    max_age: u8,
    forward_delay: u8,
    v: PriorityVector,
)
    requires
        src_mac.len() == 6,
    ensures
        ({
            let f = bpdu_bytes(
                src_mac,
                rstp,
                root,
                cost,
                bridge,
                port_id,
                hello,
                max_age,
                forward_delay,
            );
            &&& is_bpdu(f)
            &&& is_vector(v, f) <==> v.root.priority == root.priority && v.root.mac@ == root.mac@
                && v.cost == cost && v.bridge.priority == bridge.priority && v.bridge.mac@
                == bridge.mac@ && v.port_id == port_id
        }),
{
    let f = bpdu_bytes(
        src_mac,
        rstp,
        root,
        cost,
        bridge,
        port_id,
        hello,
        max_age,
        forward_delay,
    );
    let body = bpdu_body(rstp, root, cost, bridge, port_id, hello, max_age, forward_delay);
    assert(STP_DST@.len() == 6);
    assert(body.len() >= 35);
    assert(f.subrange(17, f.len() as int) =~= body);
    assert(f[17] == body[0] && f[18] == body[1] && f[20] == body[3]);
    assert(f.subrange(22, 24) =~= crate::bytes::be16(root.priority));
    crate::bytes::lemma_word16(f, 22, root.priority);
    assert(f.subrange(24, 30) =~= root.mac@);
    assert(f.subrange(30, 34) =~= crate::bytes::be32(cost));
    crate::bytes::lemma_word32(f, 30, cost);
    assert(f.subrange(34, 36) =~= crate::bytes::be16(bridge.priority));
    crate::bytes::lemma_word16(f, 34, bridge.priority);
    assert(f.subrange(36, 42) =~= bridge.mac@);
    assert(f.subrange(42, 44) =~= crate::bytes::be16(port_id));
    crate::bytes::lemma_word16(f, 42, port_id);
}

// ------------------------------------------------------------------ ports

/// One port of the bridge. Moments are in milliseconds.
#[derive(Debug, Clone, Copy)]
pub struct Port {
    pub config: PortConfig,
    pub port_number: u16,
    pub link_up: bool,
    pub speed_mbps: u32,
    /// Best received info on this port, when current.
    pub received: Option<PriorityVector>,
    pub last_rx: Option<u64>,
    pub role: Role,
    pub state: PortState,
    pub state_since: u64,
    pub bpdus_rx: u64,
    pub bpdus_tx: u64,
    pub last_tx: Option<u64>,
    pub errdisabled: bool,
}

/// The cost of a port: the configured one, else the 802.1D-2004 long path
/// cost: 20_000_000_000 / kbps.
pub open spec fn port_cost(p: Port) -> int {
    match p.config.cost {
        Some(cost) => cost as int,
        None => if p.speed_mbps == 0 {
            20_000_000
        } else if 20_000_000int / p.speed_mbps as int == 0 {
            1
        } else {
            20_000_000int / p.speed_mbps as int
        },
    }
}

impl Port {
    pub fn path_cost(&self) -> (r: u32)
        ensures
            r == port_cost(*self),
    {
        match self.config.cost {
            Some(cost) => cost,
            None => if self.speed_mbps == 0 {
                20_000_000
            } else {
                let cost: u32 = 20_000_000 / self.speed_mbps;
                if cost == 0 {
                    1
                } else {
                    cost
                }
            },
        }
    }
}

/// Does the port take part in the tree?
pub open spec fn live(p: Port) -> bool {
    p.link_up && !p.errdisabled
}

/// Does the port hear of a better root than the bridge itself?
pub open spec fn candidate(p: Port, bridge: BridgeId, max_age: u8, now: u64) -> bool {
    &&& live(p)
    &&& p.received matches Some(info) && id_value(info.root) < id_value(bridge)
    &&& p.last_rx matches Some(at) && crate::clock::since(now, at) < max_age * 1000
}

/// The cost to the root that a port hears of, through that port.
pub open spec fn cost_via(p: Port) -> int {
    let sum = p.received->0.cost + port_cost(p);
    if sum > u32::MAX {
        u32::MAX as int
    } else {
        sum
    }
}

/// Does what one port hears beat what another hears? The better root
/// decides, then the cost to it, then the neighbor, then the neighbor's
/// port.
pub open spec fn beats(a: Port, b: Port) -> bool {
    let x = a.received->0;
    let y = b.received->0;
    ||| id_value(x.root) < id_value(y.root)
    ||| id_value(x.root) == id_value(y.root) && cost_via(a) < cost_via(b)
    ||| id_value(x.root) == id_value(y.root) && cost_via(a) == cost_via(b) && id_value(x.bridge)
        < id_value(y.bridge)
    ||| id_value(x.root) == id_value(y.root) && cost_via(a) == cost_via(b) && id_value(x.bridge)
        == id_value(y.bridge) && x.port_id < y.port_id
}

/// The port, of the first `n`, that hears of the best root: the first that
/// no other beats.
pub open spec fn best_port(
    ports: Seq<(String, Port)>,
    bridge: BridgeId,
    max_age: u8,
    now: u64,
    n: int,
) -> Option<int>
    decreases n,
{
    if n <= 0 {
        None
    } else {
        let front = best_port(ports, bridge, max_age, now, n - 1);
        if !candidate(ports[n - 1].1, bridge, max_age, now) {
            front
        } else {
            match front {
                Some(k) => if beats(ports[n - 1].1, ports[k].1) {
                    Some(n - 1)
                } else {
                    Some(k)
                },
                None => Some(n - 1),
            }
        }
    }
}

/// The root bridge, our cost to it, and the root port.
pub open spec fn root_info(
    ports: Seq<(String, Port)>,
    bridge: BridgeId,
    max_age: u8,
    now: u64,
) -> (BridgeId, int, Option<int>) {
    match best_port(ports, bridge, max_age, now, ports.len() as int) {
        Some(k) => (ports[k].1.received->0.root, cost_via(ports[k].1), Some(k)),
        None => (bridge, 0, None),
    }
}

/// What we would send on a port, as a port identifier.
pub open spec fn port_id(p: Port) -> u16 {
    ((p.config.priority as u16) << 8u16) | p.port_number
}

fn own_port_id(p: &Port) -> (r: u16)
    ensures
        r == port_id(*p),
{
    ((p.config.priority as u16) << 8u16) | p.port_number
}

// ------------------------------------------------------------------ roles

/// A port without the information that has aged out.
pub open spec fn aged(p: Port, max_age: u8, now: u64) -> Port {
    if p.last_rx matches Some(at) && crate::clock::since(now, at) >= max_age * 1000 {
        Port { received: None, last_rx: None, ..p }
    } else {
        p
    }
}

/// Does a neighbor offer the segment a better way to the root than we do?
pub open spec fn offers_better(
    theirs: PriorityVector,
    root: BridgeId,
    cost: int,
    bridge: BridgeId,
) -> bool {
    ||| id_value(theirs.root) < id_value(root)
    ||| id_value(theirs.root) == id_value(root) && theirs.cost < cost
    ||| id_value(theirs.root) == id_value(root) && theirs.cost == cost && id_value(theirs.bridge)
        < id_value(bridge)
}

/// The role of a live port: the root port, an alternate where a neighbor
/// offers better, else designated.
pub open spec fn role_of(
    p: Port,
    is_root: bool,
    root: BridgeId,
    cost: int,
    bridge: BridgeId,
) -> Role {
    if is_root {
        Role::Root
    } else if p.received matches Some(theirs) && offers_better(theirs, root, cost, bridge) {
        Role::Alternate
    } else {
        Role::Designated
    }
}

/// A port in a role; a new role starts over from discarding.
pub open spec fn placed(p: Port, role: Role, now: u64) -> Port {
    if p.role != role {
        Port { role, state: PortState::Discarding, state_since: now, ..p }
    } else {
        p
    }
}

/// The state that a port goes on to: alternates discard, edge ports
/// forward at once, the others advance a step per forward-delay.
pub open spec fn next_state(p: Port, forward_time: u8, now: u64) -> PortState {
    let due = crate::clock::since(now, p.state_since) >= forward_time * 1000;
    match p.role {
        Role::Alternate => PortState::Discarding,
        Role::Disabled => PortState::Discarding,
        _ => if p.config.portfast {
            PortState::Forwarding
        } else if due {
            match p.state {
                PortState::Discarding => PortState::Learning,
                _ => PortState::Forwarding,
            }
        } else {
            p.state
        },
    }
}

/// A port in its next state.
pub open spec fn advanced(p: Port, forward_time: u8, now: u64) -> Port {
    let next = next_state(p, forward_time, now);
    if next != p.state {
        Port { state: next, state_since: now, ..p }
    } else {
        p
    }
}

/// Is a BPDU due? Designated ports (and the root bridge's ports) send them.
pub open spec fn bpdu_due(p: Port, hello_time: u8, now: u64) -> bool {
    p.role == Role::Designated && (p.last_tx matches Some(at) ==> crate::clock::since(now, at) >= hello_time
        * 1000)
}

/// A live port with its role set.
pub open spec fn seated(
    p: Port,
    is_root: bool,
    root: BridgeId,
    cost: int,
    bridge: BridgeId,
    config: Config,
    now: u64,
) -> Port {
    let a = aged(p, config.max_age, now);
    placed(a, role_of(a, is_root, root, cost, bridge), now)
}

/// A port after an evaluation pass.
pub open spec fn port_stepped(
    p: Port,
    is_root: bool,
    root: BridgeId,
    cost: int,
    bridge: BridgeId,
    config: Config,
    now: u64,
) -> Port {
    if !live(p) {
        Port { role: Role::Disabled, state: PortState::Discarding, ..p }
    } else {
        let q = advanced(
            seated(p, is_root, root, cost, bridge, config, now),
            config.forward_time,
            now,
        );
        if bpdu_due(q, config.hello_time, now) {
            Port { last_tx: Some(now), bpdus_tx: (q.bpdus_tx + 1) as u64, ..q }
        } else {
            q
        }
    }
}

/// Does the port send a BPDU in an evaluation pass?
pub open spec fn port_sends(
    p: Port,
    is_root: bool,
    root: BridgeId,
    cost: int,
    bridge: BridgeId,
    config: Config,
    now: u64,
) -> bool {
    live(p) && bpdu_due(
        advanced(
            seated(p, is_root, root, cost, bridge, config, now),
            config.forward_time,
            now,
        ),
        config.hello_time,
        now,
    )
}

/// Topology change: a non-edge port reached forwarding.
pub open spec fn reaches_forwarding(
    p: Port,
    is_root: bool,
    root: BridgeId,
    cost: int,
    bridge: BridgeId,
    config: Config,
    now: u64,
) -> bool {
    let q = seated(p, is_root, root, cost, bridge, config, now);
    live(p) && next_state(q, config.forward_time, now) == PortState::Forwarding && q.state
        != PortState::Forwarding && !p.config.portfast
}

/// Spanning tree off: everything with link forwards.
pub open spec fn port_off(p: Port) -> Port {
    Port {
        role: Role::Designated,
        state: if live(p) {
            PortState::Forwarding
        } else {
            PortState::Discarding
        },
        ..p
    }
}

/// The state that is pushed for a port.
pub open spec fn shown_state(p: Port) -> PortState {
    if p.link_up || p.errdisabled {
        p.state
    } else {
        PortState::Discarding
    }
}

// ----------------------------------------------------------------- engine

pub struct Engine {
    pub config: Config,
    pub bridge_mac: [u8; 6],
    pub ports: OrdMap<String, Port>,
    pub topology_changes: u32,
    pub last_tc: Option<(u64, String)>,
    pub last_states: OrdMap<String, PortState>,
}

/// A port's configuration in force: its own or the default, with the
/// default priority where none is set.
pub open spec fn port_config(ports: Map<Seq<char>, PortConfig>, name: Seq<char>) -> PortConfig {
    let c = if ports.dom().contains(name) {
        ports[name]
    } else {
        default_port()
    };
    PortConfig {
        priority: if c.priority == 0 {
            128
        } else {
            c.priority
        },
        ..c
    }
}

/// A configuration with the defaults for what is not set.
pub open spec fn with_defaults(c: Config) -> Config {
    Config {
        priority: if c.priority == 0 {
            32768
        } else {
            c.priority
        },
        hello_time: if c.hello_time == 0 {
            2
        } else {
            c.hello_time
        },
        max_age: if c.max_age == 0 {
            20
        } else {
            c.max_age
        },
        forward_time: if c.forward_time == 0 {
            15
        } else {
            c.forward_time
        },
        ..c
    }
}

/// A port under a new configuration. A config change lifts BPDU-guard
/// errdisable only when the guard is gone.
pub open spec fn reconfigured(p: Port, c: PortConfig) -> Port {
    Port { config: c, errdisabled: p.errdisabled && c.bpduguard, ..p }
}

/// A port that was never heard of.
pub open spec fn new_port(c: PortConfig, name: Seq<char>, now: u64) -> Port {
    Port {
        config: c,
        port_number: crate::interfaces::port_number(name),
        link_up: false,
        speed_mbps: 0,
        received: None,
        last_rx: None,
        role: Role::Disabled,
        state: PortState::Discarding,
        state_since: now,
        bpdus_rx: 0,
        bpdus_tx: 0,
        last_tx: None,
        errdisabled: false,
    }
}

/// A port after a link event; a change starts it over.
pub open spec fn linked(p: Port, up: bool, speed_mbps: u32, now: u64) -> Port {
    let q = Port {
        config: PortConfig {
            priority: if p.config.priority == 0 {
                128
            } else {
                p.config.priority
            },
            ..p.config
        },
        speed_mbps: if speed_mbps > 0 {
            speed_mbps
        } else {
            p.speed_mbps
        },
        ..p
    };
    if p.link_up != up {
        Port {
            link_up: up,
            received: None,
            last_rx: None,
            state: PortState::Discarding,
            state_since: now,
            ..q
        }
    } else {
        q
    }
}

/// Does a BPDU trip the guard of a port?
pub open spec fn guard_trips(p: Port) -> bool {
    p.config.bpduguard && !p.errdisabled
}

/// A port after a BPDU: a guarded one is errdisabled, an errdisabled one
/// only counts it.
pub open spec fn told(p: Port, v: PriorityVector, now: u64) -> Port {
    let q = Port { bpdus_rx: (p.bpdus_rx + 1) as u64, ..p };
    if guard_trips(p) {
        Port { errdisabled: true, state: PortState::Discarding, ..q }
    } else if !p.errdisabled {
        Port { received: Some(v), last_rx: Some(now), ..q }
    } else {
        q
    }
}

impl Engine {
    pub open spec fn wf(&self) -> bool {
        self.config.wf() && self.ports.wf() && self.last_states.wf()
    }

    /// The bridge's own identifier.
    pub open spec fn own_id(&self) -> BridgeId {
        BridgeId { priority: self.config.priority, mac: self.bridge_mac }
    }

    pub fn spawn(bridge_mac: [u8; 6]) -> (r: Engine)
        ensures
            r.wf(),
            r.bridge_mac == bridge_mac,
            r.config.mode == Mode::Mstp,
            r.config.priority == 32768,
            r.config.hello_time == 2,
            r.config.max_age == 20,
            r.config.forward_time == 15,
            r.config.mst_name@.len() == 0,
            r.config.mst_revision == 0,
            r.config.ports.entries@.len() == 0,
            r.config.instances.entries@.len() == 0,
            r.ports.entries@.len() == 0,
            r.topology_changes == 0,
            r.last_tc is None,
            r.last_states@ == Map::<Seq<char>, PortState>::empty(),
    {
        let mut config = Config::default();
        config.priority = 32768;
        config.hello_time = 2;
        config.max_age = 20;
        config.forward_time = 15;
        Engine {
            config,
            bridge_mac,
            ports: OrdMap::new(),
            topology_changes: 0,
            last_tc: None,
            last_states: OrdMap::new(),
        }
    }

    /// Replace the configuration (declarative). An evaluation pass is due
    /// after it.
    pub fn set_config(&mut self, config: Config)
        requires
            old(self).wf(),
            config.wf(),
        ensures
            final(self).wf(),
            final(self).config == with_defaults(config),
            final(self).bridge_mac == old(self).bridge_mac,
            final(self).topology_changes == old(self).topology_changes,
            final(self).last_tc == old(self).last_tc,
            final(self).last_states == old(self).last_states,
            final(self).ports.entries@.len() == old(self).ports.entries@.len(),
            forall|i: int|
                0 <= i < final(self).ports.entries@.len() ==> (#[trigger] final(self).ports.entries@[i]).0
                    == old(self).ports.entries@[i].0 && final(self).ports.entries@[i].1
                    == reconfigured(
                    old(self).ports.entries@[i].1,
                    port_config(config.ports@, old(self).ports.entries@[i].0@),
                ),
    {
        let ghost before = self.ports.entries@;
        let mut i: usize = 0;
        while i < self.ports.entries.len()
            invariant
                config.wf(),
                crate::ordmap::rising(before),
                i <= before.len() == self.ports.entries@.len(),
                self.bridge_mac == old(self).bridge_mac,
                self.topology_changes == old(self).topology_changes,
                self.last_tc == old(self).last_tc,
                self.last_states == old(self).last_states,
                self.last_states.wf(),
                forall|j: int|
                    0 <= j < before.len() ==> (#[trigger] self.ports.entries@[j]).0 == before[j].0
                        && self.ports.entries@[j].1 == if j < i {
                        reconfigured(before[j].1, port_config(config.ports@, before[j].0@))
                    } else {
                        before[j].1
                    },
            decreases before.len() - i,
        {
            let mut p = self.ports.entries[i].1;
            let mut c = match config.ports.get(&self.ports.entries[i].0) {
                Some(c) => *c,
                None => PortConfig::default(),
            };
            if c.priority == 0 {
                c.priority = 128;
            }
            p.config = c;
            if p.errdisabled && !c.bpduguard {
                p.errdisabled = false;
            }
            self.ports.entries[i].1 = p;
            i = i + 1;
        }
        proof {
            lemma_same_keys_rise(before, self.ports.entries@);
        }
        let mut config = config;
        if config.priority == 0 {
            config.priority = 32768;
        }
        if config.hello_time == 0 {
            config.hello_time = 2;
        }
        if config.max_age == 0 {
            config.max_age = 20;
        }
        if config.forward_time == 0 {
            config.forward_time = 15;
        }
        self.config = config;
    }

    /// A port's link changed. An evaluation pass is due after it.
    pub fn on_link(&mut self, event: LinkEvent, now: u64)
        requires
            old(self).wf(),
        ensures
            final(self).wf(),
            final(self).config == old(self).config,
            final(self).bridge_mac == old(self).bridge_mac,
            final(self).topology_changes == old(self).topology_changes,
            final(self).last_tc == old(self).last_tc,
            final(self).last_states == old(self).last_states,
            final(self).ports@ == old(self).ports@.insert(
                event.port@,
                linked(
                    if old(self).ports@.dom().contains(event.port@) {
                        old(self).ports@[event.port@]
                    } else {
                        new_port(
                            if old(self).config.ports@.dom().contains(event.port@) {
                                old(self).config.ports@[event.port@]
                            } else {
                                default_port()
                            },
                            event.port@,
                            now,
                        )
                    },
                    event.up,
                    event.speed_mbps,
                    now,
                ),
            ),
    {
        let mut p = match self.ports.get(&event.port) {
            Some(p) => *p,
            None => Port {
                config: match self.config.ports.get(&event.port) {
                    Some(c) => *c,
                    None => PortConfig::default(),
                },
                port_number: port_number_of(event.port.as_str()),
                link_up: false,
                speed_mbps: 0,
                received: None,
                last_rx: None,
                role: Role::Disabled,
                state: PortState::Discarding,
                state_since: now,
                bpdus_rx: 0,
                bpdus_tx: 0,
                last_tx: None,
                errdisabled: false,
            },
        };
        if p.config.priority == 0 {
            p.config.priority = 128;
        }
        if event.speed_mbps > 0 {
            p.speed_mbps = event.speed_mbps;
        }
        if p.link_up != event.up {
            p.link_up = event.up;
            p.received = None;
            p.last_rx = None;
            p.state = PortState::Discarding;
            p.state_since = now;
        }
        self.ports.insert(event.port, p);
    }

    /// A received frame; what comes back is the guard tripping. An
    /// evaluation pass is due after it.
    pub fn on_bpdu(&mut self, port: &str, frame: &[u8], now: u64) -> (r: Option<ErrdisableEvent>)
        requires
            old(self).wf(),
            old(self).ports@.dom().contains(port@) ==> old(self).ports@[port@].bpdus_rx < u64::MAX,
        ensures
            final(self).wf(),
            final(self).config == old(self).config,
            final(self).bridge_mac == old(self).bridge_mac,
            final(self).topology_changes == old(self).topology_changes,
            final(self).last_tc == old(self).last_tc,
            final(self).last_states == old(self).last_states,
            if is_bpdu(frame@) && old(self).ports@.dom().contains(port@) {
                let p = old(self).ports@[port@];
                &&& exists|v: PriorityVector| #[trigger]
                    is_vector(v, frame@) && final(self).ports@ == old(self).ports@.insert(
                        port@,
                        told(p, v, now),
                    )
                &&& r is Some == guard_trips(p)
            } else {
                final(self).ports == old(self).ports && r is None
            },
            r matches Some(e) ==> e.port@ == port@ && e.reason@ == "bpduguard"@,
    {
        let info = match decode_bpdu(frame) {
            Some(info) => info,
            None => return None,
        };
        let name = port.to_owned();
        let mut p = match self.ports.get(&name) {
            Some(p) => *p,
            None => return None,
        };
        let ghost was = p;
        let mut trip = false;
        p.bpdus_rx = p.bpdus_rx + 1;
        if p.config.bpduguard && !p.errdisabled {
            p.errdisabled = true;
            p.state = PortState::Discarding;
            trip = true;
        } else if !p.errdisabled {
            p.received = Some(info);
            p.last_rx = Some(now);
        }
        assert(p == told(was, info, now));
        self.ports.insert(name, p);
        if trip {
            Some(ErrdisableEvent { port: port.to_owned(), reason: "bpduguard" })
        } else {
            None
        }
    }

    fn bridge_id(&self) -> (r: BridgeId)
        ensures
            r == self.own_id(),
    {
        BridgeId { priority: self.config.priority, mac: self.bridge_mac }
    }

    /// The root bridge, our cost to it, and the root port, from current
    /// received information.
    fn compute_root(&self, now: u64) -> (r: (BridgeId, u32, Option<usize>))
        ensures
            ({
                let info = root_info(
                    self.ports.entries@,
                    self.own_id(),
                    self.config.max_age,
                    now,
                );
                &&& r.0 == info.0
                &&& r.1 == info.1
                &&& match r.2 {
                    Some(k) => info.2 == Some(k as int) && k < self.ports.entries@.len(),
                    None => info.2 is None,
                }
            }),
    {
        let bridge = self.bridge_id();
        let ghost ps = self.ports.entries@;
        let mut best: Option<usize> = None;
        let mut i: usize = 0;
        while i < self.ports.entries.len()
            invariant
                ps == self.ports.entries@,
                i <= ps.len(),
                bridge == self.own_id(),
                match best {
                    Some(k) => k < i && best_port(
                        ps,
                        bridge,
                        self.config.max_age,
                        now,
                        i as int,
                    ) == Some(k as int) && candidate(
                        ps[k as int].1,
                        bridge,
                        self.config.max_age,
                        now,
                    ),
                    None => best_port(ps, bridge, self.config.max_age, now, i as int) is None,
                },
            decreases ps.len() - i,
        {
            let p = &self.ports.entries[i].1;
            if is_candidate(p, bridge, self.config.max_age, now) {
                let better = match best {
                    Some(k) => is_beating(p, &self.ports.entries[k].1),
                    None => true,
                };
                if better {
                    best = Some(i);
                }
            }
            i = i + 1;
        }
        match best {
            Some(k) => {
                let p = &self.ports.entries[k].1;
                match p.received {
                    Some(info) => (info.root, p.cost_through(), Some(k)),
                    None => (bridge, 0, None),
                }
            },
            None => (bridge, 0, None),
        }
    }
}

impl Port {
    /// The cost to the root that the port hears of, through it.
    fn cost_through(&self) -> (r: u32)
        requires
            self.received is Some,
        ensures
            r == cost_via(*self),
    {
        let path: u32 = self.path_cost();
        match self.received {
            Some(info) => if info.cost > u32::MAX - path {
                u32::MAX
            } else {
                info.cost + path
            },
            None => path,
        }
    }
}

fn is_candidate(p: &Port, bridge: BridgeId, max_age: u8, now: u64) -> (r: bool)
    ensures
        r == candidate(*p, bridge, max_age, now),
{
    if !p.link_up || p.errdisabled {
        return false;
    }
    let heard = match p.received {
        Some(info) => info.root.value() < bridge.value(),
        None => false,
    };
    let fresh = match p.last_rx {
        Some(at) => elapsed(now, at) < max_age as u64 * 1000,
        None => false,
    };
    heard && fresh
}

fn is_beating(a: &Port, b: &Port) -> (r: bool)
    requires
        a.received is Some,
        b.received is Some,
    ensures
        r == beats(*a, *b),
{
    let ca: u32 = a.cost_through();
    let cb: u32 = b.cost_through();
    match (a.received, b.received) {
        (Some(x), Some(y)) => {
            let xr: u64 = x.root.value();
            let yr: u64 = y.root.value();
            if xr != yr {
                return xr < yr;
            }
            if ca != cb {
                return ca < cb;
            }
            let xb: u64 = x.bridge.value();
            let yb: u64 = y.bridge.value();
            if xb != yb {
                return xb < yb;
            }
            x.port_id < y.port_id
        },
        _ => false,
    }
}

/// Entries with the same keys are in the same order.
proof fn lemma_same_keys_rise<T, U>(a: Seq<(String, T)>, b: Seq<(String, U)>)
    requires
        crate::ordmap::rising(a),
        a.len() == b.len(),
        forall|i: int| 0 <= i < a.len() ==> (#[trigger] b[i]).0 == a[i].0,
    ensures
        crate::ordmap::rising(b),
{
    assert forall|i: int, j: int| 0 <= i < j < b.len() implies String::before(
        (#[trigger] b[i]).0@,
        (#[trigger] b[j]).0@,
    ) by {
        assert(String::before(a[i].0@, a[j].0@));
    }
}

// -------------------------------------------------------------------- pass

/// What an evaluation pass looks at, besides the ports.
pub struct Pass {
    pub root: BridgeId,
    pub cost: u32,
    pub root_port: Option<usize>,
    pub bridge: BridgeId,
}

/// Is a port the root port?
pub open spec fn is_root_port(pass: Pass, i: int) -> bool {
    pass.root_port matches Some(k) && k == i
}

/// The ports after an evaluation pass, one by one.
pub open spec fn stepped(before: Seq<(String, Port)>, i: int, pass: Pass, c: Config, now: u64) -> Port {
    if c.mode == Mode::Off {
        port_off(before[i].1)
    } else {
        port_stepped(
            before[i].1,
            is_root_port(pass, i),
            pass.root,
            pass.cost as int,
            pass.bridge,
            c,
            now,
        )
    }
}

/// What the first `n` ports send in an evaluation pass.
pub open spec fn frames(
    before: Seq<(String, Port)>,
    pass: Pass,
    c: Config,
    mac: Seq<u8>,
    now: u64,
    n: int,
) -> Seq<(Seq<char>, Seq<u8>)>
    decreases n,
{
    if n <= 0 {
        Seq::empty()
    } else {
        let front = frames(before, pass, c, mac, now, n - 1);
        let p = before[n - 1].1;
        if c.mode != Mode::Off && port_sends(
            p,
            is_root_port(pass, n - 1),
            pass.root,
            pass.cost as int,
            pass.bridge,
            c,
            now,
        ) {
            front.push(
                (
                    before[n - 1].0@,
                    bpdu_bytes(
                        mac,
                        true,
                        pass.root,
                        pass.cost,
                        pass.bridge,
                        port_id(p),
                        c.hello_time,
                        c.max_age,
                        c.forward_time,
                    ),
                ),
            )
        } else {
            front
        }
    }
}

/// The last of the first `n` ports whose change is a topology change.
pub open spec fn last_change(
    before: Seq<(String, Port)>,
    pass: Pass,
    c: Config,
    now: u64,
    n: int,
) -> Option<Seq<char>>
    decreases n,
{
    if n <= 0 || c.mode == Mode::Off {
        None
    } else if reaches_forwarding(
        before[n - 1].1,
        is_root_port(pass, n - 1),
        pass.root,
        pass.cost as int,
        pass.bridge,
        c,
        now,
    ) {
        Some(before[n - 1].0@)
    } else {
        last_change(before, pass, c, now, n - 1)
    }
}

/// The pass is what the ports, the bridge and the clock say.
pub open spec fn is_pass(pass: Pass, ports: Seq<(String, Port)>, bridge: BridgeId, max_age: u8, now: u64) -> bool {
    let info = root_info(ports, bridge, max_age, now);
    &&& pass.root == info.0
    &&& pass.cost == info.1
    &&& match pass.root_port {
        Some(k) => info.2 == Some(k as int),
        None => info.2 is None,
    }
    &&& pass.bridge == bridge
}

impl DeepView for StateUpdate {
    type V = (Seq<char>, PortState);

    open spec fn deep_view(&self) -> (Seq<char>, PortState) {
        (self.port@, self.state)
    }
}

/// The state pushes for the first `n` ports: those that changed.
pub open spec fn state_pushes(
    after: Seq<(String, Port)>,
    last: Map<Seq<char>, PortState>,
    n: int,
) -> Seq<(Seq<char>, PortState)>
    decreases n,
{
    if n <= 0 {
        Seq::empty()
    } else {
        let front = state_pushes(after, last, n - 1);
        let k = after[n - 1].0@;
        let s = shown_state(after[n - 1].1);
        if last.dom().contains(k) && last[k] == s {
            front
        } else {
            front.push((k, s))
        }
    }
}

/// The states last pushed, after a pass.
pub open spec fn states_after(
    ports: Map<Seq<char>, Port>,
    last: Map<Seq<char>, PortState>,
) -> Map<Seq<char>, PortState> {
    Map::new(
        |k: Seq<char>| last.dom().contains(k) || ports.dom().contains(k),
        |k: Seq<char>|
            if ports.dom().contains(k) {
                shown_state(ports[k])
            } else {
                last[k]
            },
    )
}

/// What an evaluation pass puts out.
pub struct Output {
    /// Frames to transmit: (egress port, whole Ethernet frame).
    pub bpdu_out: Vec<(String, Vec<u8>)>,
    /// Port state changes.
    pub states: Vec<StateUpdate>,
}

/// No counter is at its end.
pub open spec fn ports_fit(ports: Seq<(String, Port)>) -> bool {
    forall|i: int| 0 <= i < ports.len() ==> (#[trigger] ports[i]).1.bpdus_tx < u64::MAX
}

impl Engine {
    pub open spec fn room(&self) -> bool {
        ports_fit(self.ports.entries@) && self.topology_changes < u32::MAX
    }

    /// Is no counter at its end?
    pub fn has_room(&self) -> (r: bool)
        ensures
            r == self.room(),
    {
        let mut i: usize = 0;
        while i < self.ports.entries.len()
            invariant
                i <= self.ports.entries@.len(),
                forall|j: int|
                    0 <= j < i ==> (#[trigger] self.ports.entries@[j]).1.bpdus_tx < u64::MAX,
            decreases self.ports.entries@.len() - i,
        {
            if self.ports.entries[i].1.bpdus_tx == u64::MAX {
                assert(!(self.ports.entries@[i as int].1.bpdus_tx < u64::MAX));
                return false;
            }
            i = i + 1;
        }
        self.topology_changes < u32::MAX
    }

    /// One evaluation pass: roles, state progression, due BPDUs, state
    /// pushes.
    pub fn step(&mut self, now: u64) -> (r: Output)
        requires
            old(self).wf(),
            old(self).room(),
        ensures
            final(self).wf(),
            final(self).config == old(self).config,
            final(self).bridge_mac == old(self).bridge_mac,
            exists|pass: Pass| #[trigger]
                is_pass(
                    pass,
                    old(self).ports.entries@,
                    old(self).own_id(),
                    old(self).config.max_age,
                    now,
                ) && passed(*old(self), *final(self), r, pass, now),
    {
        let ghost before = self.ports.entries@;
        let ghost c = self.config;
        let ghost mac = self.bridge_mac@;
        let (root, cost, root_port) = self.compute_root(now);
        let pass = Pass { root, cost, root_port, bridge: self.bridge_id() };
        let off = self.config.mode == Mode::Off;
        let mut bpdu_out: Vec<(String, Vec<u8>)> = Vec::new();
        let mut tc: Option<String> = None;
        let mut i: usize = 0;
        assert(bpdu_out.deep_view() =~= Seq::<(Seq<char>, Seq<u8>)>::empty());
        while i < self.ports.entries.len()
            invariant
                crate::ordmap::rising(before),
                ports_fit(before),
                c == self.config,
                c == old(self).config,
                c.wf(),
                mac == self.bridge_mac@,
                self.bridge_mac == old(self).bridge_mac,
                self.topology_changes == old(self).topology_changes,
                self.last_tc == old(self).last_tc,
                self.last_states == old(self).last_states,
                self.last_states.wf(),
                off == (c.mode == Mode::Off),
                pass.root == root,
                pass.cost == cost,
                pass.root_port == root_port,
                i <= before.len() == self.ports.entries@.len(),
                forall|j: int|
                    0 <= j < before.len() ==> (#[trigger] self.ports.entries@[j]).0 == before[j].0
                        && self.ports.entries@[j].1 == if j < i {
                        stepped(before, j, pass, c, now)
                    } else {
                        before[j].1
                    },
                bpdu_out.deep_view() == frames(before, pass, c, mac, now, i as int),
                crate::text::option_text(tc) == last_change(before, pass, c, now, i as int),
            decreases before.len() - i,
        {
            let mut p = self.ports.entries[i].1;
            assert(p == before[i as int].1);
            if off {
                p.role = Role::Designated;
                p.state = if p.link_up && !p.errdisabled {
                    PortState::Forwarding
                } else {
                    PortState::Discarding
                };
            } else {
                let is_root = match root_port {
                    Some(k) => k == i,
                    None => false,
                };
                let (changed, sends) = step_port(&mut p, is_root, &pass, &self.config, now);
                if changed {
                    tc = Some(self.ports.entries[i].0.clone());
                }
                if sends {
                    let frame = encode_bpdu(
                        self.bridge_mac,
                        true,
                        root,
                        cost,
                        pass.bridge,
                        own_port_id(&p),
                        self.config.hello_time,
                        self.config.max_age,
                        self.config.forward_time,
                    );
                    let ghost had = bpdu_out.deep_view();
                    assert(frame.deep_view() =~= frame@);
                    let item = (self.ports.entries[i].0.clone(), frame);
                    let ghost iv = item.deep_view();
                    bpdu_out.push(item);
                    assert(bpdu_out.deep_view() =~= had.push(iv));
                }
            }
            self.ports.entries[i].1 = p;
            i = i + 1;
        }
        proof {
            lemma_same_keys_rise(before, self.ports.entries@);
        }
        match tc {
            Some(port) => {
                self.topology_changes = self.topology_changes + 1;
                self.last_tc = Some((now, port));
            },
            None => {},
        }
        let states = self.push_states();
        let r = Output { bpdu_out, states };
        assert(is_pass(
            pass,
            before,
            old(self).own_id(),
            old(self).config.max_age,
            now,
        ));
        assert(passed(*old(self), *self, r, pass, now));
        r
    }

    /// Push state changes.
    fn push_states(&mut self) -> (r: Vec<StateUpdate>)
        requires
            old(self).wf(),
        ensures
            final(self).wf(),
            final(self).config == old(self).config,
            final(self).bridge_mac == old(self).bridge_mac,
            final(self).ports == old(self).ports,
            final(self).topology_changes == old(self).topology_changes,
            final(self).last_tc == old(self).last_tc,
            final(self).last_states@ == states_after(old(self).ports@, old(self).last_states@),
            r.deep_view() == state_pushes(
                old(self).ports.entries@,
                old(self).last_states@,
                old(self).ports.entries@.len() as int,
            ),
    {
        let ghost last = self.last_states@;
        let ghost ps = self.ports.entries@;
        let mut r: Vec<StateUpdate> = Vec::new();
        let mut i: usize = 0;
        assert(r.deep_view() =~= Seq::<(Seq<char>, PortState)>::empty());
        while i < self.ports.entries.len()
            invariant
                self.wf(),
                self.config == old(self).config,
                self.bridge_mac == old(self).bridge_mac,
                self.ports == old(self).ports,
                self.topology_changes == old(self).topology_changes,
                self.last_tc == old(self).last_tc,
                ps == self.ports.entries@,
                i <= ps.len(),
                r.deep_view() == state_pushes(ps, last, i as int),
                forall|k: Seq<char>| #[trigger]
                    self.last_states@.dom().contains(k) <==> (last.dom().contains(k)
                        || crate::ordmap::has_key(ps, i as int, k)),
                forall|k: Seq<char>| #[trigger]
                    self.last_states@.dom().contains(k) ==> self.last_states@[k]
                        == if crate::ordmap::has_key(ps, i as int, k) {
                        shown_state(self.ports@[k])
                    } else {
                        last[k]
                    },
            decreases ps.len() - i,
        {
            let ghost had = self.last_states@;
            let ghost sent = r.deep_view();
            let ghost name = ps[i as int].0@;
            let p = self.ports.entries[i].1;
            let state = if p.link_up || p.errdisabled {
                p.state
            } else {
                PortState::Discarding
            };
            proof {
                crate::ordmap::lemma_map_of_entry(ps, i as int);
                crate::ordmap::lemma_has_key_next(ps, i as int);
                assert(!crate::ordmap::has_key(ps, i as int, name)) by {
                    if crate::ordmap::has_key(ps, i as int, name) {
                        let j = choose|j: int| 0 <= j < i && (#[trigger] ps[j]).0@ == name;
                        crate::ordmap::lemma_rising_unique(ps, i as int, j);
                    }
                }
            }
            let same = match self.last_states.get(&self.ports.entries[i].0) {
                Some(s) => *s == state,
                None => false,
            };
            if !same {
                self.last_states.insert(self.ports.entries[i].0.clone(), state);
                let update = StateUpdate { port: self.ports.entries[i].0.clone(), state };
                let ghost uv = update.deep_view();
                r.push(update);
                assert(r.deep_view() =~= sent.push(uv));
            }
            proof {
                assert forall|k: Seq<char>| #[trigger]
                    self.last_states@.dom().contains(k) implies self.last_states@[k]
                    == if crate::ordmap::has_key(ps, i + 1, k) {
                    shown_state(self.ports@[k])
                } else {
                    last[k]
                } by {
                    assert(had.dom().contains(k) || k == name);
                }
            }
            i = i + 1;
        }
        assert(self.last_states@ =~= states_after(self.ports@, last));
        r
    }
}

/// An evaluation pass did what the rules say.
pub open spec fn passed(before: Engine, after: Engine, r: Output, pass: Pass, now: u64) -> bool {
    let a = before.ports.entries@;
    let b = after.ports.entries@;
    let c = before.config;
    let n = a.len() as int;
    &&& b.len() == a.len()
    &&& forall|i: int|
        0 <= i < b.len() ==> (#[trigger] b[i]).0 == a[i].0 && b[i].1 == stepped(
            a,
            i,
            pass,
            c,
            now,
        )
    &&& r.bpdu_out.deep_view() == frames(a, pass, c, before.bridge_mac@, now, n)
    &&& r.states.deep_view() == state_pushes(b, before.last_states@, n)
    &&& after.last_states@ == states_after(after.ports@, before.last_states@)
    &&& match last_change(a, pass, c, now, n) {
        Some(port) => {
            &&& after.topology_changes == before.topology_changes + 1
            &&& after.last_tc matches Some(tc) && tc.0 == now && tc.1@ == port
        },
        None => after.topology_changes == before.topology_changes && after.last_tc
            == before.last_tc,
    }
}

/// One port's part of an evaluation pass: whether it changed the topology,
/// and whether it sends.
fn step_port(p: &mut Port, is_root: bool, pass: &Pass, c: &Config, now: u64) -> (r: (bool, bool))
    requires
        old(p).bpdus_tx < u64::MAX,
    ensures
        *final(p) == port_stepped(
            *old(p),
            is_root,
            pass.root,
            pass.cost as int,
            pass.bridge,
            *c,
            now,
        ),
        r.0 == reaches_forwarding(
            *old(p),
            is_root,
            pass.root,
            pass.cost as int,
            pass.bridge,
            *c,
            now,
        ),
        r.1 == port_sends(
            *old(p),
            is_root,
            pass.root,
            pass.cost as int,
            pass.bridge,
            *c,
            now,
        ),
        final(p).config == old(p).config,
        final(p).port_number == old(p).port_number,
{
    let ghost was = *p;
    if !p.link_up || p.errdisabled {
        p.role = Role::Disabled;
        p.state = PortState::Discarding;
        return (false, false);
    }
    // Age out stale info.
    match p.last_rx {
        Some(at) => {
            if elapsed(now, at) >= c.max_age as u64 * 1000 {
                p.received = None;
                p.last_rx = None;
            }
        },
        None => {},
    }
    assert(*p == aged(was, c.max_age, now));
    // Role.
    let role = if is_root {
        Role::Root
    } else {
        // What we would send on this port vs what we hear.
        let better = match p.received {
            Some(theirs) => is_better_offer(&theirs, pass),
            None => false,
        };
        if better {
            Role::Alternate
        } else {
            Role::Designated
        }
    };
    if p.role != role {
        p.role = role;
        p.state = PortState::Discarding;
        p.state_since = now;
    }
    let ghost seat = *p;
    assert(seat == seated(was, is_root, pass.root, pass.cost as int, pass.bridge, *c, now));
    // State progression.
    let delay: u64 = c.forward_time as u64 * 1000;
    let next = match role {
        Role::Alternate => PortState::Discarding,
        Role::Disabled => PortState::Discarding,
        _ => if p.config.portfast {
            PortState::Forwarding
        } else if elapsed(now, p.state_since) >= delay {
            match p.state {
                PortState::Discarding => PortState::Learning,
                _ => PortState::Forwarding,
            }
        } else {
            p.state
        },
    };
    let mut changed = false;
    if next != p.state {
        p.state = next;
        p.state_since = now;
        // Topology change: a non-edge port reached forwarding.
        if next == PortState::Forwarding && !p.config.portfast {
            changed = true;
        }
    }
    assert(*p == advanced(seat, c.forward_time, now));
    // Designated ports (and the root bridge's ports) send BPDUs.
    let mut sends = false;
    if role == Role::Designated {
        let due = match p.last_tx {
            Some(at) => elapsed(now, at) >= c.hello_time as u64 * 1000,
            None => true,
        };
        if due {
            p.last_tx = Some(now);
            p.bpdus_tx = p.bpdus_tx + 1;
            sends = true;
        }
    }
    (changed, sends)
}

fn is_better_offer(theirs: &PriorityVector, pass: &Pass) -> (r: bool)
    ensures
        r == offers_better(*theirs, pass.root, pass.cost as int, pass.bridge),
{
    let tr: u64 = theirs.root.value();
    let or: u64 = pass.root.value();
    if tr != or {
        return tr < or;
    }
    if theirs.cost != pass.cost {
        return theirs.cost < pass.cost;
    }
    theirs.bridge.value() < pass.bridge.value()
}

// --------------------------------------------------------------- snapshot

/// Per-port snapshot.
#[derive(Debug, Clone)]
pub struct PortSnapshot {
    pub port: String,
    pub role: Role,
    pub state: PortState,
    pub cost: u32,
    pub priority: u8,
    pub portfast: bool,
    pub bpduguard: bool,
    pub bpdus_rx: u64,
    pub bpdus_tx: u64,
    pub errdisabled: bool,
}

pub struct Snapshot {
    pub mode: Mode,
    pub bridge: BridgeId,
    pub root: BridgeId,
    pub root_cost: u32,
    pub root_port: Option<String>,
    pub hello_time: u8,
    pub max_age: u8,
    pub forward_time: u8,
    pub mst_name: String,
    pub mst_revision: u16,
    pub instances: OrdMap<u8, Vec<u16>>,
    pub topology_changes: u32,
    pub seconds_since_tc: Option<u64>,
    pub last_tc_port: Option<String>,
    pub ports: Vec<PortSnapshot>,
}

/// A row shows a port as it is.
pub open spec fn shows_port(r: PortSnapshot, e: (String, Port)) -> bool {
    &&& r.port@ == e.0@
    &&& r.role == e.1.role
    &&& r.state == e.1.state
    &&& r.cost == port_cost(e.1)
    &&& r.priority == e.1.config.priority
    &&& r.portfast == e.1.config.portfast
    &&& r.bpduguard == e.1.config.bpduguard
    &&& r.bpdus_rx == e.1.bpdus_rx
    &&& r.bpdus_tx == e.1.bpdus_tx
    &&& r.errdisabled == e.1.errdisabled
}

/// The ports, of the first `n`, that are shown.
pub open spec fn shown_ports(ports: Seq<(String, Port)>, n: int) -> Seq<(String, Port)>
    decreases n,
{
    if n <= 0 {
        Seq::empty()
    } else if ports[n - 1].1.link_up || ports[n - 1].1.errdisabled {
        shown_ports(ports, n - 1).push(ports[n - 1])
    } else {
        shown_ports(ports, n - 1)
    }
}

/// Two instance tables map the same VLANs.
pub open spec fn same_instances(a: Seq<(u8, Vec<u16>)>, b: Seq<(u8, Vec<u16>)>) -> bool {
    a.len() == b.len() && forall|i: int|
        0 <= i < a.len() ==> (#[trigger] a[i]).0 == b[i].0 && a[i].1@ == b[i].1@
}

fn copy_instances(m: &OrdMap<u8, Vec<u16>>) -> (r: OrdMap<u8, Vec<u16>>)
    requires
        m.wf(),
    ensures
        r.wf(),
        same_instances(r.entries@, m.entries@),
{
    let mut entries: Vec<(u8, Vec<u16>)> = Vec::new();
    let mut i: usize = 0;
    while i < m.entries.len()
        invariant
            i <= m.entries@.len(),
            entries@.len() == i,
            forall|j: int|
                0 <= j < i ==> (#[trigger] entries@[j]).0 == m.entries@[j].0 && entries@[j].1@
                    == m.entries@[j].1@,
        decreases m.entries@.len() - i,
    {
        let from = &m.entries[i].1;
        let mut vlans: Vec<u16> = Vec::new();
        let mut k: usize = 0;
        while k < from.len()
            invariant
                k <= from@.len(),
                vlans@ == from@.take(k as int),
            decreases from@.len() - k,
        {
            vlans.push(from[k]);
            k = k + 1;
            assert(vlans@ =~= from@.take(k as int));
        }
        assert(vlans@ =~= from@);
        entries.push((m.entries[i].0, vlans));
        i = i + 1;
    }
    proof {
        assert forall|a: int, b: int| 0 <= a < b < entries@.len() implies u8::before(
            (#[trigger] entries@[a]).0@,
            (#[trigger] entries@[b]).0@,
        ) by {
            assert(u8::before(m.entries@[a].0@, m.entries@[b].0@));
        }
    }
    OrdMap { entries }
}

impl Engine {
    fn port_rows(&self) -> (r: Vec<PortSnapshot>)
        ensures
            r@.len() == shown_ports(
                self.ports.entries@,
                self.ports.entries@.len() as int,
            ).len(),
            forall|i: int|
                0 <= i < r@.len() ==> shows_port(
                    #[trigger] r@[i],
                    shown_ports(self.ports.entries@, self.ports.entries@.len() as int)[i],
                ),
    {
        let ghost ps = self.ports.entries@;
        let mut r: Vec<PortSnapshot> = Vec::new();
        let mut i: usize = 0;
        while i < self.ports.entries.len()
            invariant
                ps == self.ports.entries@,
                i <= ps.len(),
                r@.len() == shown_ports(ps, i as int).len(),
                forall|j: int|
                    0 <= j < r@.len() ==> shows_port(
                        #[trigger] r@[j],
                        shown_ports(ps, i as int)[j],
                    ),
            decreases ps.len() - i,
        {
            let p = &self.ports.entries[i].1;
            if p.link_up || p.errdisabled {
                r.push(
                    PortSnapshot {
                        port: self.ports.entries[i].0.clone(),
                        role: p.role,
                        state: p.state,
                        cost: p.path_cost(),
                        priority: p.config.priority,
                        portfast: p.config.portfast,
                        bpduguard: p.config.bpduguard,
                        bpdus_rx: p.bpdus_rx,
                        bpdus_tx: p.bpdus_tx,
                        errdisabled: p.errdisabled,
                    },
                );
            }
            i = i + 1;
        }
        r
    }

    /// The state, as it stands at `now`.
    pub fn snapshot(&self, now: u64) -> (r: Snapshot)
        requires
            self.wf(),
        ensures
            r.mode == self.config.mode,
            r.bridge == self.own_id(),
            ({
                let ports = self.ports.entries@;
                let info = root_info(ports, self.own_id(), self.config.max_age, now);
                &&& r.root == info.0
                &&& r.root_cost == info.1
                &&& match info.2 {
                    Some(k) => r.root_port matches Some(name) && name@ == ports[k].0@,
                    None => r.root_port is None,
                }
            }),
            r.hello_time == self.config.hello_time,
            r.max_age == self.config.max_age,
            r.forward_time == self.config.forward_time,
            r.mst_name@ == self.config.mst_name@,
            r.mst_revision == self.config.mst_revision,
            same_instances(r.instances.entries@, self.config.instances.entries@),
            r.topology_changes == self.topology_changes,
            match self.last_tc {
                Some(tc) => r.seconds_since_tc == Some((crate::clock::since(now, tc.0) / 1000) as u64)
                    && crate::text::option_text(r.last_tc_port) == Some(tc.1@),
                None => r.seconds_since_tc is None && r.last_tc_port is None,
            },
            r.ports@.len() == shown_ports(
                self.ports.entries@,
                self.ports.entries@.len() as int,
            ).len(),
            forall|i: int|
                0 <= i < r.ports@.len() ==> shows_port(
                    #[trigger] r.ports@[i],
                    shown_ports(self.ports.entries@, self.ports.entries@.len() as int)[i],
                ),
    {
        let (root, root_cost, k) = self.compute_root(now);
        let root_port = match k {
            Some(k) => Some(self.ports.entries[k].0.clone()),
            None => None,
        };
        let (seconds_since_tc, last_tc_port) = match &self.last_tc {
            Some(tc) => (Some(elapsed(now, tc.0) / 1000), Some(tc.1.clone())),
            None => (None, None),
        };
        Snapshot {
            mode: self.config.mode,
            bridge: self.bridge_id(),
            root,
            root_cost,
            root_port,
            hello_time: self.config.hello_time,
            max_age: self.config.max_age,
            forward_time: self.config.forward_time,
            mst_name: self.config.mst_name.clone(),
            mst_revision: self.config.mst_revision,
            instances: copy_instances(&self.config.instances),
            topology_changes: self.topology_changes,
            seconds_since_tc,
            last_tc_port,
            ports: self.port_rows(),
        }
    }
}

// -------------------------------------------------------------------- laws

proof fn lemma_best_unbeaten(
    ports: Seq<(String, Port)>,
    bridge: BridgeId,
    max_age: u8,
    now: u64,
    n: int,
)
    requires
        0 <= n <= ports.len(),
    ensures
        match best_port(ports, bridge, max_age, now, n) {
            Some(k) => 0 <= k < n && candidate(ports[k].1, bridge, max_age, now) && forall|j: int|
                0 <= j < n && candidate((#[trigger] ports[j]).1, bridge, max_age, now) ==> !beats(
                    ports[j].1,
                    ports[k].1,
                ),
            None => forall|j: int|
                0 <= j < n ==> !candidate((#[trigger] ports[j]).1, bridge, max_age, now),
        },
    decreases n,
{
    if n > 0 {
        lemma_best_unbeaten(ports, bridge, max_age, now, n - 1);
    }
}

/// The root is the best bridge there is to know of: none better than it is
/// heard of on any port, and it is never worse than the bridge itself. A
/// bridge that hears of none better is the root, at no cost.
pub proof fn lemma_root_is_best(
    ports: Seq<(String, Port)>,
    bridge: BridgeId,
    max_age: u8,
    now: u64,
    j: int,
)
    requires
        0 <= j < ports.len(),
    ensures
        ({
            let info = root_info(ports, bridge, max_age, now);
            &&& id_value(info.0) <= id_value(bridge)
            &&& candidate(ports[j].1, bridge, max_age, now) ==> id_value(info.0) <= id_value(
                ports[j].1.received->0.root,
            )
            &&& info.2 is None ==> info.0 == bridge && info.1 == 0
            &&& info.2 matches Some(k) ==> 0 <= k < ports.len() && live(ports[k].1)
            &&& info.2 matches Some(k) ==> candidate(ports[j].1, bridge, max_age, now) && id_value(
                ports[j].1.received->0.root,
            ) == id_value(info.0) ==> info.1 <= ports[j].1.received->0.cost + port_cost(ports[j].1)
            &&& info.2 matches Some(k) ==> info.1 == if ports[k].1.received->0.cost + port_cost(
                ports[k].1,
            ) <= u32::MAX {
                ports[k].1.received->0.cost + port_cost(ports[k].1)
            } else {
                u32::MAX as int
            }
        }),
{
    lemma_best_unbeaten(ports, bridge, max_age, now, ports.len() as int);
}

/// Loops stay broken: after an evaluation pass a port that is down,
/// errdisabled or alternate discards.
pub proof fn lemma_blocked_ports_discard(
    p: Port,
    is_root: bool,
    root: BridgeId,
    cost: int,
    bridge: BridgeId,
    config: Config,
    now: u64,
)
    ensures
        ({
            let q = port_stepped(p, is_root, root, cost, bridge, config, now);
            !live(p) || q.role == Role::Alternate ==> q.state == PortState::Discarding
        }),
{
}

/// A port that is no edge port never skips learning: it reaches forwarding
/// only from learning or forwarding.
pub proof fn lemma_learns_before_forwarding(
    p: Port,
    is_root: bool,
    root: BridgeId,
    cost: int,
    bridge: BridgeId,
    config: Config,
    now: u64,
)
    requires
        !p.config.portfast,
        port_stepped(p, is_root, root, cost, bridge, config, now).state == PortState::Forwarding,
    ensures
        p.state != PortState::Discarding,
{
}

/// BPDU guard errdisables a guarded port that hears a bridge, which then
/// discards until the guard is gone from its configuration.
pub proof fn lemma_guard_errdisables(p: Port, v: PriorityVector, now: u64, c: PortConfig)
    requires
        p.config.bpduguard,
    ensures
        told(p, v, now).errdisabled,
        told(p, v, now).received == p.received,
        reconfigured(told(p, v, now), c).errdisabled == c.bpduguard,
{
}

/// States are pushed on change only: right after a pass nothing is left to
/// push.
pub proof fn lemma_pass_settles(
    ports: OrdMap<String, Port>,
    last: Map<Seq<char>, PortState>,
    n: int,
)
    requires
        ports.wf(),
        0 <= n <= ports.entries@.len(),
    ensures
        state_pushes(ports.entries@, states_after(ports@, last), n) == Seq::<
            (Seq<char>, PortState),
        >::empty(),
    decreases n,
{
    if n > 0 {
        lemma_pass_settles(ports, last, n - 1);
        crate::ordmap::lemma_map_of_entry(ports.entries@, n - 1);
    }
}

} // verus!
