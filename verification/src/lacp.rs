//! The LACP engine: per-member actor/partner state machines, static
//! (`mode on`) aggregation, fallback, and min-links gating.
//!
//! Pure state machine — no sockets, no gRPC:
//!
//! - inputs: config pushes ([`Engine::set_configs`]), member link
//!   events, received LACPDUs, and the clock;
//! - outputs: LACPDUs to transmit and [`GateUpdate`]s (the full wanted
//!   membership of one LAG, each member with its collect/distribute
//!   gate).
//!
//! Simplifications vs IEEE 802.1AX, chosen deliberately:
//! - `fallback individual` gates the lowest-priority member open and
//!   reports it `individual` (a full implementation would detach it
//!   from the LAG in hardware);
//! - the mux machine is collapsed to selected -> synced -> bundled
//!   (no separate ATTACH/COLLECT states).

use vstd::prelude::*;

use crate::bytes::{push_all, push_be16, push_fill, read16, read_mac};
use crate::clock::elapsed;
use crate::interfaces::port_number_of;
use crate::ordmap::{Key, OrdMap};
use crate::text::same_text;

pub mod state;

verus! {

/// Slow-protocols multicast destination (802.3 annex 57A).
pub const LACP_DST: [u8; 6] = [0x01, 0x80, 0xc2, 0x00, 0x00, 0x02];

/// Slow-protocols ethertype.
pub const LACP_ETHERTYPE: u16 = 0x8809;

#[derive(Debug, Clone, Copy, PartialEq, Eq, Structural)]
pub enum Mode {
    Active,
    Passive,
    /// Static aggregation, no LACP.
    On,
}

#[derive(Debug, Clone, Copy, PartialEq, Eq, Structural)]
pub enum Fallback {
    Static,
    Individual,
}

#[derive(Debug, Clone, Copy, PartialEq, Eq)]
pub struct MemberConfig {
    pub mode: Mode,
    pub rate_fast: bool,
    /// Default 32768.
    pub port_priority: u16,
}

pub struct LagConfig {
    pub group: u16,
    pub min_links: u8,
    pub fallback: Option<Fallback>,
    /// In milliseconds.
    pub fallback_timeout: u64,
    /// Member port name -> config.
    pub members: OrdMap<String, MemberConfig>,
}

/// A member's link state changed.
#[derive(Debug, Clone)]
pub struct LinkEvent {
    pub port: String,
    pub up: bool,
}

/// The full wanted membership of one LAG.
#[derive(Debug, Clone, PartialEq, Eq)]
pub struct GateUpdate {
    pub group: u16,
    /// (port, collect/distribute gate), sorted by port name.
    pub members: Vec<(String, bool)>,
}

/// What the partner last told us (their actor TLV).
#[derive(Debug, Clone, Copy, PartialEq, Eq)]
pub struct Partner {
    pub system_priority: u16,
    pub system: [u8; 6],
    pub key: u16,
    pub port_priority: u16,
    pub port: u16,
    pub state: u8,
}

/// One member port and what is known of its partner. Moments are in
/// milliseconds.
#[derive(Debug, Clone, Copy)]
pub struct Member {
    pub config: MemberConfig,
    /// From the port name's digits (Ethernet49 -> 49).
    pub port_number: u16,
    pub link_up: bool,
    pub partner: Option<Partner>,
    pub last_rx: Option<u64>,
    pub last_tx: Option<u64>,
    /// Gate currently wanted (collecting/distributing).
    pub bundled: bool,
    /// Forwarding as an individual port under fallback.
    pub individual: bool,
    pub pdus_rx: u64,
    pub pdus_tx: u64,
    pub churn: u32,
}

/// A member that nothing has happened to yet.
pub open spec fn new_member(config: MemberConfig, number: u16, link_up: bool) -> Member {
    Member {
        config,
        port_number: number,
        link_up,
        partner: None,
        last_rx: None,
        last_tx: None,
        bundled: false,
        individual: false,
        pdus_rx: 0,
        pdus_tx: 0,
        churn: 0,
    }
}

/// Partner information still current? (3 x our requested interval.)
pub open spec fn current(m: Member, now: u64) -> bool {
    m.last_rx matches Some(at) && crate::clock::since(now, at) < if m.config.rate_fast {
        3000int
    } else {
        90000int
    }
}

impl Member {
    fn new(config: MemberConfig, port_number: u16, link_up: bool) -> (r: Self)
        ensures
            r == new_member(config, port_number, link_up),
    {
        Member {
            config,
            port_number,
            link_up,
            partner: None,
            last_rx: None,
            last_tx: None,
            bundled: false,
            individual: false,
            pdus_rx: 0,
            pdus_tx: 0,
            churn: 0,
        }
    }

    /// Partner information still current?
    pub fn partner_current(&self, now: u64) -> (r: bool)
        ensures
            r == current(*self, now),
    {
        let timeout: u64 = if self.config.rate_fast {
            3000
        } else {
            90000
        };
        match self.last_rx {
            Some(at) => elapsed(now, at) < timeout,
            None => false,
        }
    }
}

// ----------------------------------------------------------------- frames

/// A member's current actor state octet.
pub open spec fn actor_state(m: Member, partner_current: bool) -> int {
    state::AGGREGATION + (if m.config.mode == Mode::Active {
        state::ACTIVITY as int
    } else {
        0
    }) + (if m.config.rate_fast {
        state::TIMEOUT as int
    } else {
        0
    }) + (if m.link_up && (partner_current || m.config.mode == Mode::On) {
        state::SYNC as int
    } else {
        0
    }) + (if m.bundled {
        state::COLLECTING + state::DISTRIBUTING
    } else {
        0
    }) + (if partner_current {
        0
    } else {
        state::DEFAULTED as int
    }) + (if !partner_current && m.partner is Some {
        state::EXPIRED as int
    } else {
        0
    })
}

pub fn actor_state_bits(member: &Member, partner_current: bool) -> (r: u8)
    ensures
        r == actor_state(*member, partner_current),
{
    let mut bits: u8 = state::AGGREGATION;
    if member.config.mode == Mode::Active {
        bits = bits + state::ACTIVITY;
    }
    if member.config.rate_fast {
        bits = bits + state::TIMEOUT;
    }
    if member.link_up && (partner_current || member.config.mode == Mode::On) {
        bits = bits + state::SYNC;
    }
    if member.bundled {
        bits = bits + (state::COLLECTING + state::DISTRIBUTING);
    }
    if !partner_current {
        bits = bits + state::DEFAULTED;
        // A partner we once heard and lost reads expired, not merely
        // defaulted.
        if member.partner.is_some() {
            bits = bits + state::EXPIRED;
        }
    }
    bits
}

/// `count` zero bytes.
pub open spec fn zeros(count: nat) -> Seq<u8> {
    Seq::new(count, |i: int| 0u8)
}

/// The body of an actor or partner TLV.
pub open spec fn port_info(
    system_priority: u16,
    system: Seq<u8>,
    key: u16,
    port_priority: u16,
    port: u16,
    octet: u8,
) -> Seq<u8> {
    crate::bytes::be16(system_priority) + system + crate::bytes::be16(key) + crate::bytes::be16(port_priority) + crate::bytes::be16(port) + seq![octet]
        + zeros(3)
}

/// The body of the partner TLV: what we believe about them, zeros when
/// defaulted.
pub open spec fn partner_info(partner: Option<Partner>) -> Seq<u8> {
    match partner {
        Some(p) => port_info(
            p.system_priority,
            p.system@,
            p.key,
            p.port_priority,
            p.port,
            p.state,
        ),
        None => zeros(18),
    }
}

/// One LACPDU as a whole Ethernet frame.
pub open spec fn pdu_bytes(
    src_mac: Seq<u8>,
    system_priority: u16,
    system_mac: Seq<u8>,
    key: u16,
    port_priority: u16,
    port: u16,
    octet: u8,
    partner: Option<Partner>,
) -> Seq<u8> {
    LACP_DST@ + src_mac + crate::bytes::be16(LACP_ETHERTYPE) + seq![1u8, 1u8, 1u8, 20u8] + port_info(
        system_priority,
        system_mac,
        key,
        port_priority,
        port,
        octet,
    ) + seq![2u8, 20u8] + partner_info(partner) + seq![3u8, 16u8] + zeros(66)
}

fn push_info(
    frame: &mut Vec<u8>,
    system_priority: u16,
    system: [u8; 6],
    key: u16,
    port_priority: u16,
    port: u16,
    octet: u8,
)
    ensures
        final(frame)@ == old(frame)@ + port_info(
            system_priority,
            system@,
            key,
            port_priority,
            port,
            octet,
        ),
{
    let ghost before = frame@;
    push_be16(frame, system_priority);
    push_all(frame, system.as_slice());
    push_be16(frame, key);
    push_be16(frame, port_priority);
    push_be16(frame, port);
    frame.push(octet);
    push_fill(frame, 0, 3);
    assert(frame@ =~= before + port_info(
        system_priority,
        system@,
        key,
        port_priority,
        port,
        octet,
    ));
}

/// Encode one LACPDU (whole Ethernet frame, 110-byte LACPDU body).
pub fn encode_pdu(
    src_mac: [u8; 6],
    system_priority: u16,
    system_mac: [u8; 6],
    key: u16,
    port_priority: u16,
    port: u16,
    actor_state: u8,
    partner: Option<&Partner>,
) -> (frame: Vec<u8>)
    ensures
        frame@ == pdu_bytes(
            src_mac@,
            system_priority,
            system_mac@,
            key,
            port_priority,
            port,
            actor_state,
            match partner {
                Some(p) => Some(*p),
                None => None,
            },
        ),
{
    let mut frame: Vec<u8> = Vec::new();
    push_all(&mut frame, LACP_DST.as_slice());
    push_all(&mut frame, src_mac.as_slice());
    push_be16(&mut frame, LACP_ETHERTYPE);
    let ghost head = frame@;
    frame.push(0x01);  // subtype: LACP
    frame.push(0x01);  // version
    // Actor TLV.
    frame.push(0x01);
    frame.push(20);
    assert(frame@ =~= head + seq![1u8, 1u8, 1u8, 20u8]);
    push_info(
        &mut frame,
        system_priority,
        system_mac,
        key,
        port_priority,
        port,
        actor_state,
    );
    let ghost actor = frame@;
    // Partner TLV (what we believe about them; zeros when defaulted).
    frame.push(0x02);
    frame.push(20);
    assert(frame@ =~= actor + seq![2u8, 20u8]);
    match partner {
        Some(p) => push_info(
            &mut frame,
            p.system_priority,
            p.system,
            p.key,
            p.port_priority,
            p.port,
            p.state,
        ),
        None => {
            push_fill(&mut frame, 0, 18);
        },
    }
    let ghost both = frame@;
    // Collector TLV + terminator + reserved padding to the standard
    // 110-byte LACPDU.
    frame.push(0x03);
    frame.push(16);
    assert(frame@ =~= both + seq![3u8, 16u8]);
    push_fill(&mut frame, 0, 66);
    assert(LACP_DST@.len() == 6);
    frame
}

/// Is the frame an LACPDU with an actor TLV?
pub open spec fn is_pdu(frame: Seq<u8>) -> bool {
    &&& frame.len() >= 36
    &&& crate::bytes::word16(frame, 12) == LACP_ETHERTYPE
    &&& frame[14] == 1
    &&& frame[16] == 1
    &&& frame[17] == 20
}

/// The partner is what the actor TLV of a frame says.
pub open spec fn is_actor(p: Partner, frame: Seq<u8>) -> bool {
    &&& p.system_priority == crate::bytes::word16(frame, 18)
    &&& p.system@ == frame.subrange(20, 26)
    &&& p.key == crate::bytes::word16(frame, 26)
    &&& p.port_priority == crate::bytes::word16(frame, 28)
    &&& p.port == crate::bytes::word16(frame, 30)
    &&& p.state == frame[32]
}

/// Decode the sender's actor TLV out of an Ethernet frame; None when it
/// is not an LACPDU.
pub fn decode_pdu(frame: &[u8]) -> (r: Option<Partner>)
    ensures
        match r {
            Some(p) => is_pdu(frame@) && is_actor(p, frame@),
            None => !is_pdu(frame@),
        },
{
    if frame.len() < 36 {
        return None;
    }
    if read16(frame, 12) != LACP_ETHERTYPE || frame[14] != 0x01 {
        return None;
    }
    // Actor TLV at fixed offset 16.
    if frame[16] != 0x01 || frame[17] != 20 {
        return None;
    }
    Some(
        Partner {
            system_priority: read16(frame, 18),
            system: read_mac(frame, 20),
            key: read16(frame, 26),
            port_priority: read16(frame, 28),
            port: read16(frame, 30),
            state: frame[32],
        },
    )
}

/// What one engine encodes the other decodes: every LACPDU is 124 bytes
/// long and reads back as the actor it was made of.
pub proof fn lemma_pdu_round_trips(
    src_mac: Seq<u8>,
    system_priority: u16,
    system_mac: Seq<u8>,
    key: u16,
    port_priority: u16,
    port: u16,
    octet: u8,
    partner: Option<Partner>,
    p: Partner,
)
    requires
        src_mac.len() == 6,
        system_mac.len() == 6,
    ensures
        ({
            let f = pdu_bytes(
                src_mac,
                system_priority,
                system_mac,
                key,
                port_priority,
                port,
                octet,
                partner,
            );
            &&& f.len() == 124
            &&& is_pdu(f)
            &&& is_actor(p, f) <==> p.system_priority == system_priority && p.system@
                == system_mac && p.key == key && p.port_priority == port_priority && p.port
                == port && p.state == octet
        }),
{
    let f = pdu_bytes(
        src_mac,
        system_priority,
        system_mac,
        key,
        port_priority,
        port,
        octet,
        partner,
    );
    assert(LACP_DST@.len() == 6);
    assert(f.subrange(12, 14) =~= crate::bytes::be16(LACP_ETHERTYPE));
    crate::bytes::lemma_word16(f, 12, LACP_ETHERTYPE);
    assert(f.subrange(18, 20) =~= crate::bytes::be16(system_priority));
    crate::bytes::lemma_word16(f, 18, system_priority);
    assert(f.subrange(20, 26) =~= system_mac);
    assert(f.subrange(26, 28) =~= crate::bytes::be16(key));
    crate::bytes::lemma_word16(f, 26, key);
    assert(f.subrange(28, 30) =~= crate::bytes::be16(port_priority));
    crate::bytes::lemma_word16(f, 28, port_priority);
    assert(f.subrange(30, 32) =~= crate::bytes::be16(port));
    crate::bytes::lemma_word16(f, 30, port);
}

// -------------------------------------------------------------- selection

/// One LAG and its members.
pub struct Lag {
    pub config: LagConfig,
    pub members: OrdMap<String, Member>,
    /// When this LAG last heard any partner (fallback arms from here,
    /// or from config time when nothing was ever heard).
    pub partnerless_since: u64,
    pub fallback_active: bool,
    pub last_gates: Option<Vec<(String, bool)>>,
}

/// Does a LAG speak LACP? Its first member's mode says so.
pub open spec fn speaks_lacp(config: LagConfig) -> bool {
    config.members.entries@.len() > 0 ==> config.members.entries@[0].1.mode != Mode::On
}

/// Is any member's partner current?
pub open spec fn heard_any(ms: Seq<(String, Member)>, now: u64) -> bool {
    exists|i: int| 0 <= i < ms.len() && current((#[trigger] ms[i]).1, now)
}

/// Has fallback set in? The clock restarts whenever any partner is heard.
pub open spec fn fallen_back(lag: Lag, now: u64) -> bool {
    speaks_lacp(lag.config) && lag.config.fallback is Some && !heard_any(lag.members.entries@, now)
        && crate::clock::since(now, lag.partnerless_since) >= lag.config.fallback_timeout
}

/// Does a member come before another by (port-priority, port-number)?
pub open spec fn outranks(a: Member, b: Member) -> bool {
    a.config.port_priority < b.config.port_priority || (a.config.port_priority
        == b.config.port_priority && a.port_number < b.port_number)
}

/// The lowest (port-priority, port-number) live member; of several the
/// first.
pub open spec fn chosen(ms: Seq<(String, Member)>, i: int) -> bool {
    &&& ms[i].1.link_up
    &&& forall|j: int|
        0 <= j < ms.len() && (#[trigger] ms[j]).1.link_up ==> i == j || outranks(
            ms[i].1,
            ms[j].1,
        ) || (!outranks(ms[j].1, ms[i].1) && i < j)
}

/// Does a member want to forward by itself, and does it as an individual
/// port?
pub open spec fn wants(lag: Lag, now: u64, i: int) -> (bool, bool) {
    let ms = lag.members.entries@;
    let m = ms[i].1;
    if !speaks_lacp(lag.config) {
        (m.link_up, false)
    } else if fallen_back(lag, now) {
        match lag.config.fallback {
            Some(Fallback::Individual) => (chosen(ms, i), chosen(ms, i)),
            _ => (m.link_up, false),
        }
    } else {
        (
            m.link_up && current(m, now) && m.partner is Some && state::has(
                m.partner->0.state,
                state::SYNC,
            ),
            false,
        )
    }
}

/// How many of the first `n` members want to be bundled.
pub open spec fn bundle_count(lag: Lag, now: u64, n: int) -> int
    decreases n,
{
    if n <= 0 {
        0
    } else {
        bundle_count(lag, now, n - 1) + if wants(lag, now, n - 1).0 && !wants(lag, now, n - 1).1 {
            1int
        } else {
            0
        }
    }
}

/// Does min-links hold the aggregate down?
pub open spec fn held_down(lag: Lag, now: u64) -> bool {
    lag.config.min_links > 0 && bundle_count(lag, now, lag.members.entries@.len() as int)
        < lag.config.min_links
}

/// Does a member forward? min-links applies to the aggregate (individual
/// fallback is exempt: the port forwards standalone).
pub open spec fn gate(lag: Lag, now: u64, i: int) -> bool {
    wants(lag, now, i).0 && (wants(lag, now, i).1 || !held_down(lag, now))
}

/// A member with its gate set; a change counts as churn.
pub open spec fn gated(lag: Lag, now: u64, i: int) -> Member {
    let m = lag.members.entries@[i].1;
    Member {
        bundled: gate(lag, now, i),
        individual: wants(lag, now, i).1,
        churn: if m.bundled != gate(lag, now, i) {
            (m.churn + 1) as u32
        } else {
            m.churn
        },
        ..m
    }
}

/// The membership of a LAG: every member with its gate, by name.
pub open spec fn gate_list(lag: Lag, now: u64) -> Seq<(Seq<char>, bool)> {
    Seq::new(
        lag.members.entries@.len(),
        |i: int| (lag.members.entries@[i].0@, gate(lag, now, i)),
    )
}

// ----------------------------------------------------------- transmission

/// What we transmit at: the rate the partner asks for (their TIMEOUT bit);
/// defaulted members use their own.
pub open spec fn transmits_fast(m: Member, now: u64) -> bool {
    if current(m, now) && m.partner is Some {
        state::has(m.partner->0.state, state::TIMEOUT)
    } else {
        m.config.rate_fast
    }
}

/// Is a transmission due? A passive member with nobody talking is silent.
pub open spec fn due(m: Member, now: u64) -> bool {
    &&& m.link_up
    &&& m.config.mode == Mode::Active || current(m, now)
    &&& m.last_tx matches Some(at) ==> crate::clock::since(now, at) >= if transmits_fast(m, now) {
        1000int
    } else {
        30000int
    }
}

/// The frame that a member transmits.
pub open spec fn frame_of(
    m: Member,
    group: u16,
    system_priority: u16,
    system_mac: Seq<u8>,
    now: u64,
) -> Seq<u8> {
    pdu_bytes(
        system_mac,
        system_priority,
        system_mac,
        group,
        m.config.port_priority,
        m.port_number,
        actor_state(m, current(m, now)) as u8,
        if current(m, now) {
            m.partner
        } else {
            None
        },
    )
}

/// A member after an evaluation pass.
pub open spec fn stepped(lag: Lag, now: u64, i: int) -> Member {
    let m = gated(lag, now, i);
    if speaks_lacp(lag.config) && due(m, now) {
        Member { last_tx: Some(now), pdus_tx: (m.pdus_tx + 1) as u64, ..m }
    } else {
        m
    }
}

/// What the first `n` members of a LAG transmit in an evaluation pass.
pub open spec fn lag_frames(
    lag: Lag,
    system_priority: u16,
    system_mac: Seq<u8>,
    now: u64,
    n: int,
) -> Seq<(Seq<char>, Seq<u8>)>
    decreases n,
{
    if n <= 0 {
        Seq::empty()
    } else {
        let front = lag_frames(lag, system_priority, system_mac, now, n - 1);
        let m = gated(lag, now, n - 1);
        if speaks_lacp(lag.config) && due(m, now) {
            front.push(
                (
                    lag.members.entries@[n - 1].0@,
                    frame_of(m, lag.config.group, system_priority, system_mac, now),
                ),
            )
        } else {
            front
        }
    }
}

/// No counter of a member is at its end.
pub open spec fn members_fit(ms: Seq<(String, Member)>) -> bool {
    forall|i: int|
        0 <= i < ms.len() ==> (#[trigger] ms[i]).1.churn < u32::MAX && ms[i].1.pdus_tx < u64::MAX
            && ms[i].1.pdus_rx < u64::MAX
}

/// A LAG after an evaluation pass.
pub open spec fn is_stepped(before: Lag, after: Lag, now: u64) -> bool {
    &&& after.config == before.config
    &&& after.members.entries@.len() == before.members.entries@.len()
    &&& forall|i: int|
        0 <= i < after.members.entries@.len() ==> (#[trigger] after.members.entries@[i]).0
            == before.members.entries@[i].0 && after.members.entries@[i].1 == stepped(
            before,
            now,
            i,
        )
    &&& after.partnerless_since == if heard_any(before.members.entries@, now) {
        now
    } else {
        before.partnerless_since
    }
    &&& after.fallback_active == fallen_back(before, now)
    &&& after.last_gates matches Some(g) && g.deep_view() == gate_list(before, now)
}

/// Was the membership of a LAG last pushed as it now is?
pub open spec fn gates_pushed(lag: Lag, now: u64) -> bool {
    lag.last_gates matches Some(g) && g.deep_view() == gate_list(lag, now)
}

/// The update of a LAG's membership, on change only.
pub open spec fn is_update(r: Option<GateUpdate>, lag: Lag, now: u64) -> bool {
    match r {
        Some(u) => !gates_pushed(lag, now) && u.group == lag.config.group && u.members.deep_view()
            == gate_list(lag, now),
        None => gates_pushed(lag, now),
    }
}

fn same_gates(a: &Vec<(String, bool)>, b: &Vec<(String, bool)>) -> (r: bool)
    ensures
        r == (a.deep_view() == b.deep_view()),
{
    let ghost x = a.deep_view();
    let ghost y = b.deep_view();
    assert(x.len() == a@.len() && y.len() == b@.len());
    if a.len() != b.len() {
        return false;
    }
    let mut i: usize = 0;
    while i < a.len()
        invariant
            i <= a@.len() == b@.len(),
            x == a.deep_view(),
            y == b.deep_view(),
            forall|j: int| 0 <= j < i ==> x[j] == y[j],
        decreases a@.len() - i,
    {
        assert(x[i as int] == (a@[i as int].0@, a@[i as int].1));
        assert(y[i as int] == (b@[i as int].0@, b@[i as int].1));
        if !same_text(a[i].0.as_str(), b[i].0.as_str()) || a[i].1 != b[i].1 {
            return false;
        }
        i = i + 1;
    }
    assert(x =~= y);
    true
}

fn copy_gates(v: &Vec<(String, bool)>) -> (r: Vec<(String, bool)>)
    ensures
        r.deep_view() == v.deep_view(),
{
    let mut r: Vec<(String, bool)> = Vec::new();
    let mut i: usize = 0;
    while i < v.len()
        invariant
            i <= v@.len(),
            r@.len() == i,
            forall|j: int| 0 <= j < i ==> (#[trigger] r@[j]).deep_view() == v@[j].deep_view(),
        decreases v@.len() - i,
    {
        r.push((v[i].0.clone(), v[i].1));
        i = i + 1;
    }
    assert(r.deep_view() =~= v.deep_view());
    r
}

impl Lag {
    pub open spec fn wf(&self) -> bool {
        self.config.members.wf() && self.members.wf()
    }

    fn lacp(&self) -> (r: bool)
        ensures
            r == speaks_lacp(self.config),
    {
        if self.config.members.entries.len() == 0 {
            true
        } else {
            self.config.members.entries[0].1.mode != Mode::On
        }
    }

    fn any_partner(&self, now: u64) -> (r: bool)
        ensures
            r == heard_any(self.members.entries@, now),
    {
        let mut i: usize = 0;
        while i < self.members.entries.len()
            invariant
                i <= self.members.entries@.len(),
                forall|j: int|
                    0 <= j < i ==> !current((#[trigger] self.members.entries@[j]).1, now),
            decreases self.members.entries@.len() - i,
        {
            if self.members.entries[i].1.partner_current(now) {
                assert(current(self.members.entries@[i as int].1, now));
                return true;
            }
            i = i + 1;
        }
        false
    }

    /// The lowest (port-priority, port-number) live member.
    fn choose_member(&self) -> (r: Option<usize>)
        ensures
            match r {
                Some(k) => k < self.members.entries@.len() && forall|i: int|
                    0 <= i < self.members.entries@.len() ==> (chosen(self.members.entries@, i)
                        <==> i == k),
                None => forall|i: int|
                    0 <= i < self.members.entries@.len() ==> !chosen(self.members.entries@, i),
            },
    {
        let ghost ms = self.members.entries@;
        let mut best: Option<usize> = None;
        let mut i: usize = 0;
        while i < self.members.entries.len()
            invariant
                ms == self.members.entries@,
                i <= ms.len(),
                match best {
                    Some(k) => k < i && ms[k as int].1.link_up && forall|j: int|
                        0 <= j < i && (#[trigger] ms[j]).1.link_up ==> k == j || outranks(
                            ms[k as int].1,
                            ms[j].1,
                        ) || (!outranks(ms[j].1, ms[k as int].1) && k < j),
                    None => forall|j: int| 0 <= j < i ==> !(#[trigger] ms[j]).1.link_up,
                },
            decreases ms.len() - i,
        {
            let m = &self.members.entries[i].1;
            if m.link_up {
                let better = match best {
                    Some(k) => {
                        let b = &self.members.entries[k].1;
                        m.config.port_priority < b.config.port_priority
                            || (m.config.port_priority == b.config.port_priority && m.port_number
                            < b.port_number)
                    },
                    None => true,
                };
                if better {
                    best = Some(i);
                }
            }
            i = i + 1;
        }
        proof {
            match best {
                Some(k) => {
                    assert(chosen(ms, k as int));
                    assert forall|x: int| 0 <= x < ms.len() implies (chosen(ms, x) <==> x == k) by {
                        if chosen(ms, x) && x != k {
                            assert(ms[k as int].1.link_up);
                            assert(ms[x].1.link_up);
                        }
                    }
                },
                None => {
                    assert forall|x: int| 0 <= x < ms.len() implies !chosen(ms, x) by {
                        assert(!ms[x].1.link_up);
                    }
                },
            }
        }
        best
    }

    /// What every member wants by itself.
    fn wanted(&self, now: u64, fallen: bool) -> (r: Vec<(bool, bool)>)
        requires
            fallen == fallen_back(*self, now),
        ensures
            r@.len() == self.members.entries@.len(),
            forall|i: int| 0 <= i < r@.len() ==> #[trigger] r@[i] == wants(*self, now, i),
    {
        let lacp = self.lacp();
        let alone = if lacp && fallen {
            match self.config.fallback {
                Some(Fallback::Individual) => true,
                _ => false,
            }
        } else {
            false
        };
        let pick = self.choose_member();
        let mut r: Vec<(bool, bool)> = Vec::new();
        let mut i: usize = 0;
        while i < self.members.entries.len()
            invariant
                i <= self.members.entries@.len(),
                r@.len() == i,
                forall|j: int| 0 <= j < i ==> #[trigger] r@[j] == wants(*self, now, j),
                lacp == speaks_lacp(self.config),
                fallen == fallen_back(*self, now),
                alone == (lacp && fallen && self.config.fallback == Some(Fallback::Individual)),
                match pick {
                    Some(k) => forall|x: int|
                        0 <= x < self.members.entries@.len() ==> (chosen(
                            self.members.entries@,
                            x,
                        ) <==> x == k),
                    None => forall|x: int|
                        0 <= x < self.members.entries@.len() ==> !chosen(
                            self.members.entries@,
                            x,
                        ),
                },
            decreases self.members.entries@.len() - i,
        {
            let m = &self.members.entries[i].1;
            let want = if alone {
                let mine = match pick {
                    Some(k) => k == i,
                    None => false,
                };
                (mine, mine)
            } else if !lacp || fallen {
                (m.link_up, false)
            } else {
                let synced = match m.partner {
                    Some(p) => state::has_bit(p.state, state::SYNC),
                    None => false,
                };
                (m.link_up && m.partner_current(now) && synced, false)
            };
            r.push(want);
            i = i + 1;
        }
        r
    }

    /// One evaluation pass: selection + gates + due transmissions.
    pub fn step(
        &mut self,
        system_priority: u16,
        system_mac: [u8; 6],
        now: u64,
        pdu_out: &mut Vec<(String, Vec<u8>)>,
    ) -> (update: Option<GateUpdate>)
        requires
            old(self).wf(),
            members_fit(old(self).members.entries@),
        ensures
            final(self).wf(),
            is_stepped(*old(self), *final(self), now),
            is_update(update, *old(self), now),
            final(pdu_out).deep_view() == old(pdu_out).deep_view() + lag_frames(
                *old(self),
                system_priority,
                system_mac@,
                now,
                old(self).members.entries@.len() as int,
            ),
    {
        let ghost before = *self;
        let ghost ms = before.members.entries@;
        let ghost sent = pdu_out.deep_view();
        let lacp = self.lacp();
        let any = self.any_partner(now);
        let fallen = lacp && self.config.fallback.is_some() && !any && elapsed(
            now,
            self.partnerless_since,
        ) >= self.config.fallback_timeout;
        let wanted = self.wanted(now, fallen);
        let held = self.is_held(now, &wanted);
        // Fallback arming: the clock restarts whenever any partner is
        // heard.
        if any {
            self.partnerless_since = now;
        }
        self.fallback_active = fallen;
        let mut list: Vec<(String, bool)> = Vec::new();
        let mut i: usize = 0;
        let group: u16 = self.config.group;
        assert(sent + lag_frames(before, system_priority, system_mac@, now, 0) =~= sent);
        while i < self.members.entries.len()
            invariant
                ms == before.members.entries@,
                members_fit(ms),
                i <= ms.len() == self.members.entries@.len() == wanted@.len(),
                lacp == speaks_lacp(before.config),
                held == held_down(before, now),
                forall|j: int| 0 <= j < wanted@.len() ==> #[trigger] wanted@[j] == wants(
                    before,
                    now,
                    j,
                ),
                group == before.config.group,
                self.config == before.config,
                self.partnerless_since == (if heard_any(ms, now) {
                    now
                } else {
                    before.partnerless_since
                }),
                self.fallback_active == fallen_back(before, now),
                self.last_gates == before.last_gates,
                forall|j: int|
                    0 <= j < ms.len() ==> (#[trigger] self.members.entries@[j]).0 == ms[j].0
                        && self.members.entries@[j].1 == if j < i {
                        stepped(before, now, j)
                    } else {
                        ms[j].1
                    },
                list@.len() == i,
                forall|j: int|
                    0 <= j < i ==> (#[trigger] list@[j]).0@ == ms[j].0@ && list@[j].1 == gate(
                        before,
                        now,
                        j,
                    ),
                pdu_out.deep_view() == sent + lag_frames(
                    before,
                    system_priority,
                    system_mac@,
                    now,
                    i as int,
                ),
            decreases ms.len() - i,
        {
            let mut m = self.members.entries[i].1;
            assert(m == ms[i as int].1);
            let (want, individual) = wanted[i];
            // Apply + churn accounting.
            let open = want && (individual || !held);
            if m.bundled != open {
                m.bundled = open;
                m.churn = m.churn + 1;
            }
            m.individual = individual;
            assert(m == gated(before, now, i as int));
            list.push((self.members.entries[i].0.clone(), open));
            // Due transmissions.
            if lacp && is_due(&m, now) {
                let cur = m.partner_current(now);
                let octet: u8 = actor_state_bits(&m, cur);
                let believed = if cur {
                    m.partner.as_ref()
                } else {
                    None
                };
                let frame = encode_pdu(
                    system_mac,
                    system_priority,
                    system_mac,
                    group,
                    m.config.port_priority,
                    m.port_number,
                    octet,
                    believed,
                );
                let ghost had = pdu_out.deep_view();
                let item = (self.members.entries[i].0.clone(), frame);
                let ghost iv = item.deep_view();
                assert(frame.deep_view() =~= frame@);
                pdu_out.push(item);
                assert(pdu_out.deep_view() =~= had.push(iv));
                m.last_tx = Some(now);
                m.pdus_tx = m.pdus_tx + 1;
            }
            assert(m == stepped(before, now, i as int));
            self.members.entries[i].1 = m;
            i = i + 1;
            assert(pdu_out.deep_view() =~= sent + lag_frames(
                before,
                system_priority,
                system_mac@,
                now,
                i as int,
            ));
        }
        assert(list.deep_view() =~= gate_list(before, now));
        assert(crate::ordmap::rising(self.members.entries@)) by {
            assert forall|a: int, b: int| 0 <= a < b < self.members.entries@.len() implies String::before(
                (#[trigger] self.members.entries@[a]).0@,
                (#[trigger] self.members.entries@[b]).0@,
            ) by {
                assert(String::before(ms[a].0@, ms[b].0@));
            }
        }
        // Gates out (full declarative membership), on change only.
        let pushed = match &self.last_gates {
            Some(g) => same_gates(g, &list),
            None => false,
        };
        if pushed {
            return None;
        }
        self.last_gates = Some(copy_gates(&list));
        Some(GateUpdate { group, members: list })
    }

    /// Does min-links hold the aggregate down?
    fn is_held(&self, now: u64, wanted: &Vec<(bool, bool)>) -> (r: bool)
        requires
            wanted@.len() == self.members.entries@.len(),
            forall|i: int| 0 <= i < wanted@.len() ==> #[trigger] wanted@[i] == wants(*self, now, i),
        ensures
            r == held_down(*self, now),
    {
        let mut bundled: usize = 0;
        let mut i: usize = 0;
        while i < wanted.len()
            invariant
                i <= wanted@.len(),
                forall|j: int|
                    0 <= j < wanted@.len() ==> #[trigger] wanted@[j] == wants(*self, now, j),
                bundled == bundle_count(*self, now, i as int),
                bundled <= i,
            decreases wanted@.len() - i,
        {
            if wanted[i].0 && !wanted[i].1 {
                bundled = bundled + 1;
            }
            i = i + 1;
        }
        self.config.min_links > 0 && bundled < self.config.min_links as usize
    }
}

fn is_due(m: &Member, now: u64) -> (r: bool)
    ensures
        r == due(*m, now),
{
    let cur = m.partner_current(now);
    if !m.link_up || !(m.config.mode == Mode::Active || cur) {
        return false;
    }
    let fast = if cur {
        match m.partner {
            Some(p) => state::has_bit(p.state, state::TIMEOUT),
            None => m.config.rate_fast,
        }
    } else {
        m.config.rate_fast
    };
    let interval: u64 = if fast {
        1000
    } else {
        30000
    };
    match m.last_tx {
        Some(at) => elapsed(now, at) >= interval,
        None => true,
    }
}

// ----------------------------------------------------------------- engine

/// A LAG with its members as a map.
#[verifier::ext_equal]
pub struct LagModel {
    pub config: LagConfig,
    pub members: Map<Seq<char>, Member>,
    pub partnerless_since: u64,
    pub fallback_active: bool,
    pub last_gates: Option<Vec<(String, bool)>>,
}

pub open spec fn lag_model(lag: Lag) -> LagModel {
    LagModel {
        config: lag.config,
        members: lag.members@,
        partnerless_since: lag.partnerless_since,
        fallback_active: lag.fallback_active,
        last_gates: lag.last_gates,
    }
}

pub open spec fn opt_model(lag: Option<Lag>) -> Option<LagModel> {
    match lag {
        Some(lag) => Some(lag_model(lag)),
        None => None,
    }
}

pub open spec fn lags_model(m: OrdMap<u16, Lag>) -> Map<u16, LagModel> {
    Map::new(|g: u16| m@.dom().contains(g), |g: u16| lag_model(m@[g]))
}

/// What a config push makes of a LAG: members that stay keep their runtime
/// state, new ones start with the link state that is remembered.
pub open spec fn configured(
    had: Option<LagModel>,
    config: LagConfig,
    links: Map<Seq<char>, bool>,
    now: u64,
) -> LagModel {
    let members = Map::new(
        |n: Seq<char>| config.members@.dom().contains(n),
        |n: Seq<char>|
            if had is Some && had->0.members.dom().contains(n) {
                Member { config: config.members@[n], ..had->0.members[n] }
            } else {
                new_member(
                    config.members@[n],
                    crate::interfaces::port_number(n),
                    links.dom().contains(n) && links[n],
                )
            },
    );
    match had {
        Some(lag) => LagModel { config, members, ..lag },
        None => LagModel {
            config,
            members,
            partnerless_since: now,
            fallback_active: false,
            last_gates: None,
        },
    }
}

/// Is a group configured?
pub open spec fn has_group(configs: Seq<LagConfig>, group: u16) -> bool {
    exists|i: int| 0 <= i < configs.len() && (#[trigger] configs[i]).group == group
}

/// The LAG of a group, where there is one.
pub open spec fn lag_at(lags: Map<u16, LagModel>, group: u16) -> Option<LagModel> {
    if lags.dom().contains(group) {
        Some(lags[group])
    } else {
        None
    }
}

/// The LAGs after the first `n` configurations of a push: groups absent
/// from it are torn down, the others configured in turn.
pub open spec fn lags_after(
    lags: Map<u16, LagModel>,
    configs: Seq<LagConfig>,
    links: Map<Seq<char>, bool>,
    now: u64,
    n: int,
) -> Map<u16, LagModel>
    decreases n,
{
    if n <= 0 {
        Map::new(
            |g: u16| lags.dom().contains(g) && has_group(configs, g),
            |g: u16| lags[g],
        )
    } else {
        let front = lags_after(lags, configs, links, now, n - 1);
        let config = configs[n - 1];
        front.insert(config.group, configured(lag_at(front, config.group), config, links, now))
    }
}

/// The group that owns each member port of the first `n` LAGs; where
/// several name one port, the last.
pub open spec fn owners(lags: Seq<(u16, Lag)>, n: int) -> Map<Seq<char>, u16>
    decreases n,
{
    if n <= 0 {
        Map::empty()
    } else {
        owners(lags, n - 1).union_prefer_right(
            Map::new(
                |p: Seq<char>| lags[n - 1].1.members@.dom().contains(p),
                |p: Seq<char>| lags[n - 1].0,
            ),
        )
    }
}

pub struct Engine {
    pub system_priority: u16,
    pub system_mac: [u8; 6],
    pub lags: OrdMap<u16, Lag>,
    /// Port name -> owning group.
    pub port_to_lag: OrdMap<String, u16>,
    /// Link states remembered across reconfigs (a port may join a LAG
    /// after its link came up).
    pub link_states: OrdMap<String, bool>,
}

/// The keep rule of a config push.
pub open spec fn stays(configs: Seq<LagConfig>) -> spec_fn(u16, Lag) -> bool {
    |g: u16, lag: Lag| has_group(configs, g)
}

fn group_in(configs: &Vec<LagConfig>, group: u16) -> (r: bool)
    ensures
        r == has_group(configs@, group),
{
    let mut i: usize = 0;
    while i < configs.len()
        invariant
            i <= configs@.len(),
            forall|j: int| 0 <= j < i ==> (#[trigger] configs@[j]).group != group,
        decreases configs@.len() - i,
    {
        if configs[i].group == group {
            assert(configs@[i as int].group == group);
            return true;
        }
        i = i + 1;
    }
    false
}

/// The members of a LAG under a new configuration.
fn configure_members(
    had: &Option<Lag>,
    config: &LagConfig,
    links: &OrdMap<String, bool>,
    now: u64,
) -> (r: OrdMap<String, Member>)
    requires
        config.members.wf(),
        links.wf(),
        had matches Some(lag) ==> lag.wf(),
    ensures
        r.wf(),
        r@ == configured(
            opt_model(*had),
            *config,
            links@,
            now,
        ).members,
{
    let ghost model = opt_model(*had);
    let ghost goal = configured(model, *config, links@, now).members;
    let mut r: OrdMap<String, Member> = OrdMap::new();
    let mut i: usize = 0;
    while i < config.members.entries.len()
        invariant
            config.members.wf(),
            links.wf(),
            r.wf(),
            *had matches Some(lag) ==> lag.wf(),
            model == opt_model(*had),
            goal == configured(model, *config, links@, now).members,
            i <= config.members.entries@.len(),
            forall|n: Seq<char>| #[trigger]
                r@.dom().contains(n) <==> crate::ordmap::has_key(
                    config.members.entries@,
                    i as int,
                    n,
                ),
            forall|n: Seq<char>| #[trigger] r@.dom().contains(n) ==> r@[n] == goal[n],
        decreases config.members.entries@.len() - i,
    {
        let name = &config.members.entries[i].0;
        let member_config = config.members.entries[i].1;
        let ghost before = r@;
        proof {
            crate::ordmap::lemma_map_of_entry(config.members.entries@, i as int);
            crate::ordmap::lemma_has_key_next(config.members.entries@, i as int);
        }
        let kept = match had {
            Some(lag) => match lag.members.get(name) {
                Some(m) => Some(*m),
                None => None,
            },
            None => None,
        };
        let member = match kept {
            Some(m) => {
                let mut m = m;
                m.config = member_config;
                m
            },
            None => {
                let up = match links.get(name) {
                    Some(up) => *up,
                    None => false,
                };
                Member::new(member_config, port_number_of(name.as_str()), up)
            },
        };
        assert(member == goal[name@]);
        r.insert(name.clone(), member);
        proof {
            assert forall|n: Seq<char>| #[trigger] r@.dom().contains(n) implies r@[n]
                == goal[n] by {
                if n != name@ {
                    assert(before.dom().contains(n));
                }
            }
        }
        i = i + 1;
    }
    assert(r@ =~= goal);
    r
}

impl Engine {
    pub open spec fn wf(&self) -> bool {
        &&& self.lags.wf()
        &&& forall|g: u16| #[trigger] self.lags@.dom().contains(g) ==> self.lags@[g].wf()
        &&& self.port_to_lag.wf()
        &&& self.link_states.wf()
    }

    /// `system_mac` seeds the actor system id.
    pub fn spawn(system_mac: [u8; 6]) -> (r: Engine)
        ensures
            r.wf(),
            r.system_priority == 32768,
            r.system_mac == system_mac,
            r.lags.entries@.len() == 0,
            r.port_to_lag@ == Map::<Seq<char>, u16>::empty(),
            r.link_states@ == Map::<Seq<char>, bool>::empty(),
    {
        Engine {
            system_priority: 32768,
            system_mac,
            lags: OrdMap::new(),
            port_to_lag: OrdMap::new(),
            link_states: OrdMap::new(),
        }
    }

    /// Replace the full desired LAG/LACP state (declarative). Groups
    /// absent from `configs` are torn down. An evaluation pass is due
    /// after it.
    pub fn set_configs(&mut self, system_priority: u16, configs: Vec<LagConfig>, now: u64)
        requires
            old(self).wf(),
            forall|i: int| 0 <= i < configs@.len() ==> (#[trigger] configs@[i]).members.wf(),
        ensures
            final(self).wf(),
            final(self).system_priority == system_priority,
            final(self).system_mac == old(self).system_mac,
            final(self).link_states == old(self).link_states,
            lags_model(final(self).lags) == lags_after(
                lags_model(old(self).lags),
                configs@,
                old(self).link_states@,
                now,
                configs@.len() as int,
            ),
            final(self).port_to_lag@ == owners(
                final(self).lags.entries@,
                final(self).lags.entries@.len() as int,
            ),
    {
        let ghost all = configs@;
        let ghost first = lags_model(self.lags);
        let ghost links = self.link_states@;
        let ghost old_lags = self.lags@;
        self.system_priority = system_priority;
        let keep = |g: &u16, lag: &Lag| -> (r: bool)
            ensures
                r == stays(configs@)(g@, *lag),
            { group_in(&configs, *g) };
        self.lags.retain(keep, Ghost(stays(all)));
        proof {
            assert forall|g: u16| #[trigger] self.lags@.dom().contains(g) implies self.lags@[g].wf()
                by {
                assert(old_lags.dom().contains(g));
            }
            assert(lags_model(self.lags) =~= lags_after(first, all, links, now, 0));
        }
        let mut rest = configs;
        let ghost mut n: int = 0;
        assert(rest@ =~= all.skip(0));
        while rest.len() > 0
            invariant
                self.wf(),
                self.system_priority == system_priority,
                self.system_mac == old(self).system_mac,
                self.link_states == old(self).link_states,
                links == self.link_states@,
                0 <= n <= all.len(),
                rest@ == all.skip(n),
                forall|i: int| 0 <= i < all.len() ==> (#[trigger] all[i]).members.wf(),
                lags_model(self.lags) == lags_after(first, all, links, now, n),
            decreases rest@.len(),
        {
            let ghost front = lags_model(self.lags);
            let config = rest.remove(0);
            assert(config == all[n]);
            let group: u16 = config.group;
            let ghost lags_before = self.lags@;
            let had = self.lags.remove(&group);
            let members = configure_members(&had, &config, &self.link_states, now);
            let ghost model = lag_at(front, group);
            let lag = match had {
                Some(lag) => Lag {
                    config,
                    members,
                    partnerless_since: lag.partnerless_since,
                    fallback_active: lag.fallback_active,
                    last_gates: lag.last_gates,
                },
                None => Lag {
                    config,
                    members,
                    partnerless_since: now,
                    fallback_active: false,
                    last_gates: None,
                },
            };
            let ghost made = lag_model(lag);
            assert(made == configured(model, config, links, now));
            self.lags.insert(group, lag);
            proof {
                assert forall|g: u16| #[trigger] self.lags@.dom().contains(g) implies self.lags@[g].wf()
                    by {
                    if g != group {
                        assert(lags_before.dom().contains(g));
                    }
                }
                assert(lags_model(self.lags) =~= front.insert(group, made));
                assert(rest@ =~= all.skip(n + 1));
                n = n + 1;
            }
        }
        self.port_to_lag = self.build_owners();
    }

    /// The group that owns each member port.
    fn build_owners(&self) -> (r: OrdMap<String, u16>)
        requires
            self.wf(),
        ensures
            r.wf(),
            r@ == owners(self.lags.entries@, self.lags.entries@.len() as int),
    {
        let mut r: OrdMap<String, u16> = OrdMap::new();
        let mut i: usize = 0;
        while i < self.lags.entries.len()
            invariant
                self.wf(),
                r.wf(),
                i <= self.lags.entries@.len(),
                r@ == owners(self.lags.entries@, i as int),
            decreases self.lags.entries@.len() - i,
        {
            proof {
                crate::ordmap::lemma_map_of_entry(self.lags.entries@, i as int);
                assert(self.lags@.dom().contains(self.lags.entries@[i as int].0));
            }
            self.lags.entries[i].1.own(self.lags.entries[i].0, &mut r);
            i = i + 1;
            assert(r@ =~= owners(self.lags.entries@, i as int));
        }
        r
    }
}

impl Lag {
    /// Enter the members of a LAG as owned by a group.
    fn own(&self, group: u16, r: &mut OrdMap<String, u16>)
        requires
            self.wf(),
            old(r).wf(),
        ensures
            final(r).wf(),
            final(r)@ == old(r)@.union_prefer_right(
                Map::new(|p: Seq<char>| self.members@.dom().contains(p), |p: Seq<char>| group),
            ),
    {
        let ghost before = r@;
        let ghost mine = Map::new(
            |p: Seq<char>| self.members@.dom().contains(p),
            |p: Seq<char>| group,
        );
        let mut j: usize = 0;
        while j < self.members.entries.len()
            invariant
                self.wf(),
                r.wf(),
                j <= self.members.entries@.len(),
                forall|p: Seq<char>| #[trigger]
                    r@.dom().contains(p) <==> (before.dom().contains(p) || crate::ordmap::has_key(
                        self.members.entries@,
                        j as int,
                        p,
                    )),
                forall|p: Seq<char>| #[trigger]
                    r@.dom().contains(p) ==> r@[p] == if crate::ordmap::has_key(
                        self.members.entries@,
                        j as int,
                        p,
                    ) {
                        group
                    } else {
                        before[p]
                    },
            decreases self.members.entries@.len() - j,
        {
            let ghost had = r@;
            let ghost name = self.members.entries@[j as int].0@;
            r.insert(self.members.entries[j].0.clone(), group);
            proof {
                crate::ordmap::lemma_has_key_next(self.members.entries@, j as int);
                assert forall|p: Seq<char>| #[trigger] r@.dom().contains(p) implies r@[p]
                    == if crate::ordmap::has_key(self.members.entries@, j + 1, p) {
                    group
                } else {
                    before[p]
                } by {
                    if p != name {
                        assert(had.dom().contains(p));
                    }
                }
            }
            j = j + 1;
        }
        assert(r@ =~= before.union_prefer_right(mine));
    }
}

// ----------------------------------------------------------------- events

/// A member after a link event; a lost link forgets the partner.
pub open spec fn linked(m: Member, up: bool) -> Member {
    Member {
        link_up: up,
        partner: if up {
            m.partner
        } else {
            None
        },
        last_rx: if up {
            m.last_rx
        } else {
            None
        },
        ..m
    }
}

/// A member that has heard its partner.
pub open spec fn told(m: Member, partner: Partner, now: u64) -> Member {
    Member {
        partner: Some(partner),
        last_rx: Some(now),
        pdus_rx: (m.pdus_rx + 1) as u64,
        ..m
    }
}

/// The member that a port is, by the group that owns it.
pub open spec fn member_at(
    lags: Map<u16, LagModel>,
    owned: Map<Seq<char>, u16>,
    port: Seq<char>,
) -> Option<Member> {
    if owned.dom().contains(port) && lags.dom().contains(owned[port])
        && lags[owned[port]].members.dom().contains(port) {
        Some(lags[owned[port]].members[port])
    } else {
        None
    }
}

/// The LAGs with a port's member replaced.
pub open spec fn with_member(
    lags: Map<u16, LagModel>,
    owned: Map<Seq<char>, u16>,
    port: Seq<char>,
    m: Member,
) -> Map<u16, LagModel> {
    let lag = lags[owned[port]];
    lags.insert(owned[port], LagModel { members: lag.members.insert(port, m), ..lag })
}

impl Engine {
    /// The member that a port is.
    fn find_member(&self, port: &String) -> (r: Option<Member>)
        requires
            self.wf(),
        ensures
            r == member_at(lags_model(self.lags), self.port_to_lag@, port@),
    {
        let group: u16 = match self.port_to_lag.get(port) {
            Some(g) => *g,
            None => return None,
        };
        match self.lags.get(&group) {
            Some(lag) => match lag.members.get(port) {
                Some(m) => Some(*m),
                None => None,
            },
            None => None,
        }
    }

    /// Replace a port's member.
    fn put_member(&mut self, port: &String, m: Member)
        requires
            old(self).wf(),
            member_at(lags_model(old(self).lags), old(self).port_to_lag@, port@) is Some,
        ensures
            final(self).wf(),
            final(self).system_priority == old(self).system_priority,
            final(self).system_mac == old(self).system_mac,
            final(self).port_to_lag == old(self).port_to_lag,
            final(self).link_states == old(self).link_states,
            lags_model(final(self).lags) == with_member(
                lags_model(old(self).lags),
                old(self).port_to_lag@,
                port@,
                m,
            ),
    {
        let ghost before = lags_model(self.lags);
        let ghost lags_before = self.lags@;
        match self.port_to_lag.get(port) {
            Some(g) => {
                let group: u16 = *g;
                match self.lags.remove(&group) {
                    Some(lag) => {
                        let mut lag = lag;
                        let ghost was = lag_model(lag);
                        lag.members.insert(port.clone(), m);
                        let ghost now = lag_model(lag);
                        assert(now =~= LagModel { members: was.members.insert(port@, m), ..was });
                        self.lags.insert(group, lag);
                        proof {
                            assert forall|x: u16| #[trigger] self.lags@.dom().contains(
                                x,
                            ) implies self.lags@[x].wf() by {
                                if x != group {
                                    assert(lags_before.dom().contains(x));
                                }
                            }
                            assert(lags_model(self.lags) =~= before.insert(group, now));
                        }
                    },
                    None => {},
                }
            },
            None => {},
        }
    }

    /// A member's link state changed. An evaluation pass is due after it.
    pub fn on_link(&mut self, event: LinkEvent)
        requires
            old(self).wf(),
        ensures
            final(self).wf(),
            final(self).system_priority == old(self).system_priority,
            final(self).system_mac == old(self).system_mac,
            final(self).port_to_lag == old(self).port_to_lag,
            final(self).link_states@ == old(self).link_states@.insert(event.port@, event.up),
            ({
                let lags = lags_model(old(self).lags);
                let owned = old(self).port_to_lag@;
                lags_model(final(self).lags) == match member_at(lags, owned, event.port@) {
                    Some(m) => with_member(lags, owned, event.port@, linked(m, event.up)),
                    None => lags,
                }
            }),
    {
        let port = event.port.clone();
        self.link_states.insert(event.port, event.up);
        match self.find_member(&port) {
            Some(m) => {
                let mut m = m;
                m.link_up = event.up;
                if !event.up {
                    m.partner = None;
                    m.last_rx = None;
                }
                self.put_member(&port, m);
            },
            None => {},
        }
    }

    /// A received frame. An evaluation pass is due after it.
    pub fn on_pdu(&mut self, port: &str, frame: &[u8], now: u64)
        requires
            old(self).wf(),
            member_at(lags_model(old(self).lags), old(self).port_to_lag@, port@) matches Some(m)
                ==> m.pdus_rx < u64::MAX,
        ensures
            final(self).wf(),
            final(self).system_priority == old(self).system_priority,
            final(self).system_mac == old(self).system_mac,
            final(self).port_to_lag == old(self).port_to_lag,
            final(self).link_states == old(self).link_states,
            ({
                let lags = lags_model(old(self).lags);
                let owned = old(self).port_to_lag@;
                match member_at(lags, owned, port@) {
                    Some(m) => if is_pdu(frame@) {
                        exists|p: Partner| #[trigger]
                            is_actor(p, frame@) && lags_model(final(self).lags) == with_member(
                                lags,
                                owned,
                                port@,
                                told(m, p, now),
                            )
                    } else {
                        lags_model(final(self).lags) == lags
                    },
                    None => lags_model(final(self).lags) == lags,
                }
            }),
    {
        match decode_pdu(frame) {
            Some(partner) => {
                let name = port.to_owned();
                match self.find_member(&name) {
                    Some(m) => {
                        let mut m = m;
                        m.partner = Some(partner);
                        m.last_rx = Some(now);
                        m.pdus_rx = m.pdus_rx + 1;
                        self.put_member(&name, m);
                    },
                    None => {},
                }
            },
            None => {},
        }
    }
}

// -------------------------------------------------------------------- pass

/// What the first `n` LAGs transmit in an evaluation pass.
pub open spec fn all_frames(
    lags: Seq<(u16, Lag)>,
    system_priority: u16,
    system_mac: Seq<u8>,
    now: u64,
    n: int,
) -> Seq<(Seq<char>, Seq<u8>)>
    decreases n,
{
    if n <= 0 {
        Seq::empty()
    } else {
        all_frames(lags, system_priority, system_mac, now, n - 1) + lag_frames(
            lags[n - 1].1,
            system_priority,
            system_mac,
            now,
            lags[n - 1].1.members.entries@.len() as int,
        )
    }
}

impl DeepView for GateUpdate {
    type V = (u16, Seq<(Seq<char>, bool)>);

    open spec fn deep_view(&self) -> (u16, Seq<(Seq<char>, bool)>) {
        (self.group, self.members.deep_view())
    }
}

/// The membership updates of the first `n` LAGs in an evaluation pass.
pub open spec fn all_updates(lags: Seq<(u16, Lag)>, now: u64, n: int) -> Seq<
    (u16, Seq<(Seq<char>, bool)>),
>
    decreases n,
{
    if n <= 0 {
        Seq::empty()
    } else if gates_pushed(lags[n - 1].1, now) {
        all_updates(lags, now, n - 1)
    } else {
        all_updates(lags, now, n - 1).push(
            (lags[n - 1].1.config.group, gate_list(lags[n - 1].1, now)),
        )
    }
}

/// What an evaluation pass puts out.
pub struct Output {
    /// Frames to transmit: (egress port, whole Ethernet frame).
    pub pdu_out: Vec<(String, Vec<u8>)>,
    /// Wanted membership/gates per LAG, on change.
    pub gates: Vec<GateUpdate>,
}

impl Engine {
    /// No counter of a member is at its end.
    pub open spec fn room(&self) -> bool {
        forall|i: int|
            0 <= i < self.lags.entries@.len() ==> members_fit(
                (#[trigger] self.lags.entries@[i]).1.members.entries@,
            )
    }

    /// Is no counter at its end?
    pub fn has_room(&self) -> (r: bool)
        ensures
            r == self.room(),
    {
        let mut i: usize = 0;
        while i < self.lags.entries.len()
            invariant
                i <= self.lags.entries@.len(),
                forall|j: int|
                    0 <= j < i ==> members_fit(
                        (#[trigger] self.lags.entries@[j]).1.members.entries@,
                    ),
            decreases self.lags.entries@.len() - i,
        {
            if !check_fit(&self.lags.entries[i].1.members) {
                assert(!members_fit(self.lags.entries@[i as int].1.members.entries@));
                return false;
            }
            i = i + 1;
        }
        true
    }

    /// One evaluation pass over every LAG: selection + gates + due
    /// transmissions.
    pub fn step(&mut self, now: u64) -> (r: Output)
        requires
            old(self).wf(),
            old(self).room(),
        ensures
            final(self).wf(),
            final(self).system_priority == old(self).system_priority,
            final(self).system_mac == old(self).system_mac,
            final(self).port_to_lag == old(self).port_to_lag,
            final(self).link_states == old(self).link_states,
            final(self).lags.entries@.len() == old(self).lags.entries@.len(),
            forall|i: int|
                0 <= i < final(self).lags.entries@.len() ==> (#[trigger] final(self).lags.entries@[i]).0 == old(self).lags.entries@[i].0 && is_stepped(
                    old(self).lags.entries@[i].1,
                    final(self).lags.entries@[i].1,
                    now,
                ),
            r.pdu_out.deep_view() == all_frames(
                old(self).lags.entries@,
                old(self).system_priority,
                old(self).system_mac@,
                now,
                old(self).lags.entries@.len() as int,
            ),
            r.gates.deep_view() == all_updates(
                old(self).lags.entries@,
                now,
                old(self).lags.entries@.len() as int,
            ),
    {
        let ghost before = self.lags.entries@;
        let ghost lags_before = self.lags@;
        let mut pdu_out: Vec<(String, Vec<u8>)> = Vec::new();
        let mut gates: Vec<GateUpdate> = Vec::new();
        let priority: u16 = self.system_priority;
        let mac = self.system_mac;
        let mut i: usize = 0;
        assert(pdu_out.deep_view() =~= Seq::<(Seq<char>, Seq<u8>)>::empty());
        assert(gates.deep_view() =~= Seq::<(u16, Seq<(Seq<char>, bool)>)>::empty());
        assert forall|j: int| 0 <= j < before.len() implies (#[trigger] before[j]).1.wf() by {
            crate::ordmap::lemma_map_of_entry(before, j);
            assert(lags_before.dom().contains(before[j].0));
        }
        while i < self.lags.entries.len()
            invariant
                i <= before.len() == self.lags.entries@.len(),
                crate::ordmap::rising(before),
                forall|j: int| 0 <= j < before.len() ==> (#[trigger] before[j]).1.wf(),
                forall|j: int|
                    0 <= j < before.len() ==> members_fit(
                        (#[trigger] before[j]).1.members.entries@,
                    ),
                priority == self.system_priority == old(self).system_priority,
                mac == self.system_mac,
                mac == old(self).system_mac,
                self.port_to_lag == old(self).port_to_lag,
                self.link_states == old(self).link_states,
                self.port_to_lag.wf(),
                self.link_states.wf(),
                forall|j: int|
                    0 <= j < before.len() ==> (#[trigger] self.lags.entries@[j]).0 == before[j].0,
                forall|j: int|
                    0 <= j < i ==> (#[trigger] self.lags.entries@[j]).1.wf() && is_stepped(
                        before[j].1,
                        self.lags.entries@[j].1,
                        now,
                    ),
                forall|j: int|
                    i <= j < before.len() ==> (#[trigger] self.lags.entries@[j]).1 == before[j].1,
                pdu_out.deep_view() == all_frames(before, priority, mac@, now, i as int),
                gates.deep_view() == all_updates(before, now, i as int),
            decreases before.len() - i,
        {
            let ghost had = gates.deep_view();
            let ghost here = self.lags.entries@;
            assert(here[i as int].1 == before[i as int].1);
            let update = self.lags.entries[i].1.step(priority, mac, now, &mut pdu_out);
            match update {
                Some(u) => {
                    let ghost uv = u.deep_view();
                    gates.push(u);
                    assert(gates.deep_view() =~= had.push(uv));
                },
                None => {},
            }
            proof {
                assert forall|j: int| 0 <= j < before.len() && j != i implies (
                #[trigger] self.lags.entries@[j]) == here[j] by {}
            }
            i = i + 1;
        }
        proof {
            let after = self.lags.entries@;
            assert forall|a: int, b: int| 0 <= a < b < after.len() implies u16::before(
                (#[trigger] after[a]).0@,
                (#[trigger] after[b]).0@,
            ) by {
                assert(u16::before(before[a].0@, before[b].0@));
            }
            assert forall|g: u16| #[trigger] self.lags@.dom().contains(g) implies self.lags@[g].wf()
                by {
                let j = choose|j: int| 0 <= j < after.len() && (#[trigger] after[j]).0@ == g;
                crate::ordmap::lemma_map_of_entry(after, j);
            }
        }
        Output { pdu_out, gates }
    }
}

fn check_fit(members: &OrdMap<String, Member>) -> (r: bool)
    ensures
        r == members_fit(members.entries@),
{
    let mut i: usize = 0;
    while i < members.entries.len()
        invariant
            i <= members.entries@.len(),
            forall|j: int|
                0 <= j < i ==> (#[trigger] members.entries@[j]).1.churn < u32::MAX
                    && members.entries@[j].1.pdus_tx < u64::MAX && members.entries@[j].1.pdus_rx
                    < u64::MAX,
        decreases members.entries@.len() - i,
    {
        let m = &members.entries[i].1;
        if m.churn == u32::MAX || m.pdus_tx == u64::MAX || m.pdus_rx == u64::MAX {
            assert(!(members.entries@[i as int].1.churn < u32::MAX
                && members.entries@[i as int].1.pdus_tx < u64::MAX
                && members.entries@[i as int].1.pdus_rx < u64::MAX));
            return false;
        }
        i = i + 1;
    }
    true
}

// --------------------------------------------------------------- snapshot

/// Runtime state of one member.
#[derive(Debug, Clone)]
pub struct MemberSnapshot {
    pub port: String,
    pub status: &'static str,
    pub rate_fast: bool,
    pub actor_state: u8,
    pub partner_state: u8,
    pub partner_system: Option<(u16, [u8; 6])>,
    pub partner_port: u16,
    pub partner_key: u16,
    pub partner_priority: u16,
    pub pdus_rx: u64,
    pub pdus_tx: u64,
    pub churn: u32,
}

#[derive(Debug, Clone)]
pub struct LagSnapshot {
    pub group: u16,
    pub lacp: bool,
    pub active_mode: bool,
    pub bundled: u32,
    pub total: u32,
    pub up: bool,
    pub min_links: u8,
    pub fallback: Option<Fallback>,
    /// In milliseconds.
    pub fallback_timeout: u64,
    pub fallback_active: bool,
    pub members: Vec<MemberSnapshot>,
}

#[derive(Debug, Clone)]
pub struct Snapshot {
    pub system_priority: u16,
    pub system_mac: [u8; 6],
    pub lags: Vec<LagSnapshot>,
}

/// How a member stands.
pub open spec fn member_status(m: Member) -> Seq<char> {
    if m.individual {
        "individual"@
    } else if m.bundled {
        "bundled"@
    } else if m.link_up {
        "standby"@
    } else {
        "down"@
    }
}

/// A snapshot shows a member as it is.
pub open spec fn shows_member(r: MemberSnapshot, e: (String, Member), now: u64) -> bool {
    let m = e.1;
    &&& r.port@ == e.0@
    &&& r.status@ == member_status(m)
    &&& r.rate_fast == m.config.rate_fast
    &&& r.actor_state == actor_state(m, current(m, now))
    &&& r.pdus_rx == m.pdus_rx
    &&& r.pdus_tx == m.pdus_tx
    &&& r.churn == m.churn
    &&& match m.partner {
        Some(p) => {
            &&& r.partner_state == p.state
            &&& r.partner_port == p.port
            &&& r.partner_key == p.key
            &&& r.partner_priority == p.port_priority
            &&& r.partner_system == if current(m, now) {
                Some((p.system_priority, p.system))
            } else {
                None
            }
        },
        None => {
            &&& r.partner_state == 0
            &&& r.partner_port == 0
            &&& r.partner_key == 0
            &&& r.partner_priority == 0
            &&& r.partner_system is None
        },
    }
}

/// How many of the first `n` members are bundled into the aggregate.
pub open spec fn bundled_now(ms: Seq<(String, Member)>, n: int) -> int
    decreases n,
{
    if n <= 0 {
        0
    } else {
        bundled_now(ms, n - 1) + if ms[n - 1].1.bundled && !ms[n - 1].1.individual {
            1int
        } else {
            0
        }
    }
}

/// Does any member forward?
pub open spec fn forwards(ms: Seq<(String, Member)>) -> bool {
    exists|i: int| 0 <= i < ms.len() && (#[trigger] ms[i]).1.bundled
}

/// A snapshot shows a LAG as it is.
pub open spec fn shows_lag(r: LagSnapshot, lag: Lag, now: u64) -> bool {
    let ms = lag.members.entries@;
    let first = lag.config.members.entries@;
    &&& r.group == lag.config.group
    &&& r.lacp == speaks_lacp(lag.config)
    &&& r.active_mode == (first.len() > 0 && first[0].1.mode == Mode::Active)
    &&& r.bundled == bundled_now(ms, ms.len() as int) as u32
    &&& r.total == ms.len() as u32
    &&& r.up == forwards(ms)
    &&& r.min_links == lag.config.min_links
    &&& r.fallback == lag.config.fallback
    &&& r.fallback_timeout == lag.config.fallback_timeout
    &&& r.fallback_active == lag.fallback_active
    &&& r.members@.len() == ms.len()
    &&& forall|i: int| 0 <= i < ms.len() ==> shows_member(#[trigger] r.members@[i], ms[i], now)
}

fn show_member(name: &String, m: &Member, now: u64) -> (r: MemberSnapshot)
    ensures
        shows_member(r, (*name, *m), now),
{
    let cur = m.partner_current(now);
    let status: &'static str = if m.individual {
        "individual"
    } else if m.bundled {
        "bundled"
    } else if m.link_up {
        "standby"
    } else {
        "down"
    };
    let octet: u8 = actor_state_bits(m, cur);
    match m.partner {
        Some(p) => MemberSnapshot {
            port: name.clone(),
            status,
            rate_fast: m.config.rate_fast,
            actor_state: octet,
            partner_state: p.state,
            partner_system: if cur {
                Some((p.system_priority, p.system))
            } else {
                None
            },
            partner_port: p.port,
            partner_key: p.key,
            partner_priority: p.port_priority,
            pdus_rx: m.pdus_rx,
            pdus_tx: m.pdus_tx,
            churn: m.churn,
        },
        None => MemberSnapshot {
            port: name.clone(),
            status,
            rate_fast: m.config.rate_fast,
            actor_state: octet,
            partner_state: 0,
            partner_system: None,
            partner_port: 0,
            partner_key: 0,
            partner_priority: 0,
            pdus_rx: m.pdus_rx,
            pdus_tx: m.pdus_tx,
            churn: m.churn,
        },
    }
}

impl Lag {
    fn show(&self, now: u64) -> (r: LagSnapshot)
        ensures
            shows_lag(r, *self, now),
    {
        let ghost ms = self.members.entries@;
        let mut members: Vec<MemberSnapshot> = Vec::new();
        let mut bundled: usize = 0;
        let mut up = false;
        let mut i: usize = 0;
        while i < self.members.entries.len()
            invariant
                ms == self.members.entries@,
                i <= ms.len(),
                members@.len() == i,
                forall|j: int|
                    0 <= j < i ==> shows_member(#[trigger] members@[j], ms[j], now),
                bundled == bundled_now(ms, i as int),
                bundled <= i,
                up == (exists|j: int| 0 <= j < i && (#[trigger] ms[j]).1.bundled),
            decreases ms.len() - i,
        {
            let e = &self.members.entries[i];
            if e.1.bundled {
                assert(ms[i as int].1.bundled);
                up = true;
                if !e.1.individual {
                    bundled = bundled + 1;
                }
            }
            members.push(show_member(&e.0, &e.1, now));
            i = i + 1;
        }
        let active_mode = if self.config.members.entries.len() == 0 {
            false
        } else {
            self.config.members.entries[0].1.mode == Mode::Active
        };
        LagSnapshot {
            group: self.config.group,
            lacp: self.lacp(),
            active_mode,
            bundled: bundled as u32,
            total: self.members.entries.len() as u32,
            up,
            min_links: self.config.min_links,
            fallback: self.config.fallback,
            fallback_timeout: self.config.fallback_timeout,
            fallback_active: self.fallback_active,
            members,
        }
    }
}

impl Engine {
    /// Runtime state, as it stands at `now`.
    pub fn snapshot(&self, now: u64) -> (r: Snapshot)
        ensures
            r.system_priority == self.system_priority,
            r.system_mac == self.system_mac,
            r.lags@.len() == self.lags.entries@.len(),
            forall|i: int|
                0 <= i < r.lags@.len() ==> shows_lag(
                    #[trigger] r.lags@[i],
                    self.lags.entries@[i].1,
                    now,
                ),
    {
        let mut lags: Vec<LagSnapshot> = Vec::new();
        let mut i: usize = 0;
        while i < self.lags.entries.len()
            invariant
                i <= self.lags.entries@.len(),
                lags@.len() == i,
                forall|j: int|
                    0 <= j < i ==> shows_lag(#[trigger] lags@[j], self.lags.entries@[j].1, now),
            decreases self.lags.entries@.len() - i,
        {
            lags.push(self.lags.entries[i].1.show(now));
            i = i + 1;
        }
        Snapshot { system_priority: self.system_priority, system_mac: self.system_mac, lags }
    }
}

// -------------------------------------------------------------------- laws

/// A gate is open only where the link is up; under LACP, without fallback,
/// only where a current partner is in sync as well.
pub proof fn lemma_gate_needs_link(lag: Lag, now: u64, i: int)
    requires
        0 <= i < lag.members.entries@.len(),
        gate(lag, now, i),
    ensures
        lag.members.entries@[i].1.link_up,
        speaks_lacp(lag.config) && !fallen_back(lag, now) ==> current(
            lag.members.entries@[i].1,
            now,
        ) && (lag.members.entries@[i].1.partner matches Some(p) && p.state & 0x08 != 0),
{
    if speaks_lacp(lag.config) && !fallen_back(lag, now) {
        let octet = lag.members.entries@[i].1.partner->0.state;
        assert(octet / 8 % 2 == 1 ==> octet & 0x08 != 0) by (bit_vector);
    }
}

/// min-links holds the LAG down: with fewer members in sync than the
/// minimum, no gate of the aggregate is open.
pub proof fn lemma_min_links_holds(lag: Lag, now: u64, i: int)
    requires
        0 <= i < lag.members.entries@.len(),
        bundle_count(lag, now, lag.members.entries@.len() as int) < lag.config.min_links,
    ensures
        gate(lag, now, i) ==> wants(lag, now, i).1,
{
    lemma_bundle_count_nonneg(lag, now, lag.members.entries@.len() as int);
}

proof fn lemma_bundle_count_nonneg(lag: Lag, now: u64, n: int)
    ensures
        bundle_count(lag, now, n) >= 0,
    decreases n,
{
    if n > 0 {
        lemma_bundle_count_nonneg(lag, now, n - 1);
    }
}

/// Static mode never transmits LACPDUs, and opens its gates by link state
/// alone.
pub proof fn lemma_static_mode(
    lag: Lag,
    system_priority: u16,
    system_mac: Seq<u8>,
    now: u64,
    n: int,
)
    requires
        !speaks_lacp(lag.config),
    ensures
        lag_frames(lag, system_priority, system_mac, now, n) == Seq::<
            (Seq<char>, Seq<u8>),
        >::empty(),
        forall|i: int| wants(lag, now, i) == (lag.members.entries@[i].1.link_up, false),
    decreases n,
{
    if n > 0 {
        lemma_static_mode(lag, system_priority, system_mac, now, n - 1);
    }
}

/// At most one member forwards as an individual port.
pub proof fn lemma_one_individual(lag: Lag, now: u64, i: int, j: int)
    requires
        0 <= i < lag.members.entries@.len(),
        0 <= j < lag.members.entries@.len(),
        wants(lag, now, i).1,
        wants(lag, now, j).1,
    ensures
        i == j,
{
    let ms = lag.members.entries@;
    assert(ms[i].1.link_up && ms[j].1.link_up);
}

proof fn lemma_wants_settled(before: Lag, after: Lag, now: u64, n: int)
    requires
        is_stepped(before, after, now),
        0 <= n <= before.members.entries@.len(),
    ensures
        forall|i: int|
            0 <= i < before.members.entries@.len() ==> #[trigger] wants(after, now, i) == wants(
                before,
                now,
                i,
            ),
        bundle_count(after, now, n) == bundle_count(before, now, n),
    decreases n,
{
    let a = before.members.entries@;
    let b = after.members.entries@;
    assert forall|i: int| 0 <= i < a.len() implies current((#[trigger] b[i]).1, now) == current(
        a[i].1,
        now,
    ) && b[i].1.link_up == a[i].1.link_up && b[i].1.partner == a[i].1.partner && b[i].1.config
        == a[i].1.config && b[i].1.port_number == a[i].1.port_number by {
        assert(b[i].1 == stepped(before, now, i));
    }
    assert(heard_any(a, now) == heard_any(b, now)) by {
        if heard_any(a, now) {
            let i = choose|i: int| 0 <= i < a.len() && current((#[trigger] a[i]).1, now);
            assert(current(b[i].1, now));
        }
        if heard_any(b, now) {
            let i = choose|i: int| 0 <= i < b.len() && current((#[trigger] b[i]).1, now);
            assert(current(a[i].1, now));
        }
    }
    assert(fallen_back(after, now) == fallen_back(before, now));
    assert forall|i: int| 0 <= i < a.len() implies #[trigger] wants(after, now, i) == wants(
        before,
        now,
        i,
    ) by {
        assert(b[i].1.link_up == a[i].1.link_up);
        assert(chosen(b, i) == chosen(a, i)) by {
            if chosen(a, i) {
                assert forall|j: int|
                    0 <= j < b.len() && (#[trigger] b[j]).1.link_up implies i == j || outranks(
                    b[i].1,
                    b[j].1,
                ) || (!outranks(b[j].1, b[i].1) && i < j) by {
                    assert(a[j].1.link_up);
                }
            }
            if chosen(b, i) {
                assert forall|j: int|
                    0 <= j < a.len() && (#[trigger] a[j]).1.link_up implies i == j || outranks(
                    a[i].1,
                    a[j].1,
                ) || (!outranks(a[j].1, a[i].1) && i < j) by {
                    assert(b[j].1.link_up);
                }
            }
        }
    }
    if n > 0 {
        lemma_wants_settled(before, after, now, n - 1);
    }
}

/// Memberships are pushed on change only: after an evaluation pass another
/// one at the same moment has nothing to push.
pub proof fn lemma_pass_settles(before: Lag, after: Lag, now: u64)
    requires
        is_stepped(before, after, now),
    ensures
        gates_pushed(after, now),
        is_update(None, after, now),
{
    lemma_wants_settled(before, after, now, before.members.entries@.len() as int);
    let a = gate_list(before, now);
    let b = gate_list(after, now);
    assert(held_down(after, now) == held_down(before, now));
    assert forall|i: int| 0 <= i < a.len() implies a[i] == b[i] by {
        assert(after.members.entries@[i].0 == before.members.entries@[i].0);
        assert(wants(after, now, i) == wants(before, now, i));
    }
    assert(a =~= b);
}

} // verus!
