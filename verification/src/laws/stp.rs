//! Laws of spanning tree.

use vstd::prelude::*;

use crate::stp::{
    BridgeId, Config, Engine, Mode, Output, Pass, Port, PortConfig, PortState, PriorityVector, Role,
};

verus! {

/// What a port was told still counts: it was heard less than the maximum age
/// ago.
pub open spec fn heard(p: Port, max_age: u8, now: u64) -> bool {
    p.received is Some && p.last_rx is Some && (if now <= p.last_rx->0 {
        max_age > 0
    } else {
        now - p.last_rx->0 < max_age * 1000
    })
}

/// The cost of a link: the configured one, or 20 Tb/s over its speed, at least
/// 1 and 20 000 000 where the speed is not known.
pub open spec fn link_cost(p: Port) -> int {
    match p.config.cost {
        Some(c) => c as int,
        None => if p.speed_mbps == 0 {
            20_000_000
        } else if p.speed_mbps > 20_000_000 {
            1
        } else {
            20_000_000int / p.speed_mbps as int
        },
    }
}

/// The cost to the root through a port: what is heard and the link's own, as
/// far as 32 bits count.
pub open spec fn total_cost(p: Port) -> int {
    if p.received->0.cost + link_cost(p) <= 0xffff_ffff {
        p.received->0.cost + link_cost(p)
    } else {
        0xffff_ffff
    }
}

/// A port through which a better root than the bridge itself is heard of.
pub open spec fn uplink(p: Port, bridge: BridgeId, max_age: u8, now: u64) -> bool {
    p.link_up && !p.errdisabled && heard(p, max_age, now) && crate::stp::id_value(
        p.received->0.root,
    ) < crate::stp::id_value(bridge)
}

proof fn lemma_uplinks(p: Port, bridge: BridgeId, max_age: u8, now: u64)
    ensures
        crate::stp::candidate(p, bridge, max_age, now) == uplink(p, bridge, max_age, now),
        p.received is Some ==> crate::stp::cost_via(p) == total_cost(p),
{
    lemma_costs(p);
}

proof fn lemma_costs(p: Port)
    ensures
        p.received is Some ==> crate::stp::cost_via(p) == total_cost(p),
        crate::stp::port_cost(p) == link_cost(p),
{
    if p.speed_mbps > 0 {
        vstd::arithmetic::div_mod::lemma_fundamental_div_mod(20_000_000, p.speed_mbps as int);
        let q = 20_000_000int / p.speed_mbps as int;
        let s = p.speed_mbps as int;
        assert(q == 0 <==> s > 20_000_000) by (nonlinear_arith)
            requires
                20_000_000 == s * q + 20_000_000int % s,
                0 <= 20_000_000int % s < s,
                s > 0,
                q >= 0,
        ;
    }
}

/// The root port is the best way to the best root. No uplink knows a better
/// root; of those to the same root none has a smaller total cost, counting
/// the link's own; of those of the same cost none has a better neighbor, and
/// of those of the same neighbor none hears a lower port. The root cost is the
/// total cost through the root port.
pub proof fn lemma_root_port_is_cheapest(
    ports: Seq<(String, Port)>,
    bridge: BridgeId,
    max_age: u8,
    now: u64,
    j: int,
)
    requires
        0 <= j < ports.len(),
        uplink(ports[j].1, bridge, max_age, now),
    ensures
        ({
            let (root, cost, best) = crate::stp::root_info(ports, bridge, max_age, now);
            &&& best is Some
            &&& 0 <= best->0 < ports.len()
            &&& uplink(ports[best->0].1, bridge, max_age, now)
            &&& root == ports[best->0].1.received->0.root
            &&& cost == total_cost(ports[best->0].1)
            &&& {
                let x = ports[best->0].1.received->0;
                let y = ports[j].1.received->0;
                &&& crate::stp::id_value(x.root) <= crate::stp::id_value(y.root)
                &&& crate::stp::id_value(x.root) == crate::stp::id_value(y.root) ==> {
                    &&& cost <= total_cost(ports[j].1)
                    &&& cost == total_cost(ports[j].1) ==> crate::stp::id_value(x.bridge)
                        <= crate::stp::id_value(y.bridge)
                    &&& cost == total_cost(ports[j].1) && crate::stp::id_value(x.bridge)
                        == crate::stp::id_value(y.bridge) ==> x.port_id <= y.port_id
                }
            }
        }),
{
    lemma_best(ports, bridge, max_age, now, ports.len() as int);
    lemma_uplinks(ports[j].1, bridge, max_age, now);
    let best = crate::stp::best_port(ports, bridge, max_age, now, ports.len() as int);
    lemma_uplinks(ports[best->0].1, bridge, max_age, now);
}

proof fn lemma_best(
    ports: Seq<(String, Port)>,
    bridge: BridgeId,
    max_age: u8,
    now: u64,
    n: int,
)
    requires
        0 <= n <= ports.len(),
    ensures
        match crate::stp::best_port(ports, bridge, max_age, now, n) {
            Some(k) => 0 <= k < n && uplink(ports[k].1, bridge, max_age, now) && forall|j: int|
                0 <= j < n && uplink((#[trigger] ports[j]).1, bridge, max_age, now)
                    ==> !crate::stp::beats(ports[j].1, ports[k].1),
            None => forall|j: int|
                0 <= j < n ==> !uplink((#[trigger] ports[j]).1, bridge, max_age, now),
        },
    decreases n,
{
    if n > 0 {
        lemma_best(ports, bridge, max_age, now, n - 1);
        lemma_uplinks(ports[n - 1].1, bridge, max_age, now);
    }
}

/// A bridge without an uplink is the root itself, at no cost and without a root
/// port.
pub proof fn lemma_without_uplink_root(
    ports: Seq<(String, Port)>,
    bridge: BridgeId,
    max_age: u8,
    now: u64,
)
    requires
        forall|j: int|
            0 <= j < ports.len() ==> !uplink((#[trigger] ports[j]).1, bridge, max_age, now),
    ensures
        crate::stp::root_info(ports, bridge, max_age, now) == (bridge, 0int, None::<int>),
{
    lemma_best(ports, bridge, max_age, now, ports.len() as int);
}

/// The roles of a pass. A port without link, or errdisabled, is disabled. Of
/// the others the root port is the root; one is alternate where its neighbor
/// still offers its segment a better root, or the same at less cost, or at the
/// same cost as the better bridge; the rest are designated.
pub proof fn lemma_roles_of_a_pass(
    before: Engine,
    after: Engine,
    out: Output,
    pass: Pass,
    now: u64,
    i: int,
)
    requires
        crate::stp::is_pass(
            pass,
            before.ports.entries@,
            before.own_id(),
            before.config.max_age,
            now,
        ),
        crate::stp::passed(before, after, out, pass, now),
        before.config.mode != Mode::Off,
        0 <= i < before.ports.entries@.len(),
        before.ports.entries@[i].1.received is Some ==> before.ports.entries@[i].1.last_rx is Some,
    ensures
        ({
            let ports = before.ports.entries@;
            let p = ports[i].1;
            let q = after.ports.entries@[i].1;
            let own = BridgeId { priority: before.config.priority, mac: before.bridge_mac };
            let (root, cost, best) = crate::stp::root_info(ports, own, before.config.max_age, now);
            let theirs = p.received->0;
            let better = crate::stp::id_value(theirs.root) < crate::stp::id_value(root) || (
            crate::stp::id_value(theirs.root) == crate::stp::id_value(root) && (theirs.cost < cost
                || (theirs.cost == cost && crate::stp::id_value(theirs.bridge)
                < crate::stp::id_value(own))));
            &&& after.ports.entries@[i].0 == ports[i].0
            &&& !p.link_up || p.errdisabled ==> q.role == Role::Disabled && q.state
                == PortState::Discarding
            &&& p.link_up && !p.errdisabled ==> {
                &&& q.role == Role::Root <==> best == Some(i)
                &&& q.role == Role::Alternate <==> best != Some(i) && heard(
                    p,
                    before.config.max_age,
                    now,
                ) && better
                &&& q.role != Role::Disabled
                &&& q.received == if heard(p, before.config.max_age, now) {
                    p.received
                } else {
                    None
                }
            }
            &&& q.link_up == p.link_up && q.errdisabled == p.errdisabled && q.config == p.config
                && q.speed_mbps == p.speed_mbps && q.bpdus_rx == p.bpdus_rx && q.port_number
                == p.port_number
        }),
{
    assert(after.ports.entries@[i].1 == crate::stp::stepped(
        before.ports.entries@,
        i,
        pass,
        before.config,
        now,
    ));
}

/// The states of a pass. Alternate and disabled ports discard. Edge ports
/// forward. A port with a new role starts from discarding; one in its old role
/// stays in its state until the forward delay is over, and then goes one step
/// on: discarding, learning, forwarding. The clock of a state starts when it is
/// entered.
pub proof fn lemma_states_of_a_pass(
    before: Engine,
    after: Engine,
    out: Output,
    pass: Pass,
    now: u64,
    i: int,
)
    requires
        crate::stp::passed(before, after, out, pass, now),
        before.config.mode != Mode::Off,
        before.config.forward_time > 0,
        0 <= i < before.ports.entries@.len(),
    ensures
        ({
            let p = before.ports.entries@[i].1;
            let q = after.ports.entries@[i].1;
            let over = now > p.state_since && now - p.state_since >= before.config.forward_time
                * 1000;
            let live = p.link_up && !p.errdisabled;
            &&& q.role == Role::Alternate || q.role == Role::Disabled ==> q.state
                == PortState::Discarding
            &&& q.role == Role::Root || q.role == Role::Designated ==> {
                &&& p.config.portfast ==> q.state == PortState::Forwarding
                &&& !p.config.portfast && p.role != q.role ==> q.state == PortState::Discarding
                    && q.state_since == now
                &&& !p.config.portfast && p.role == q.role && !over ==> q.state == p.state
                    && q.state_since == p.state_since
                &&& !p.config.portfast && p.role == q.role && over ==> q.state == (match p.state {
                    PortState::Discarding => PortState::Learning,
                    PortState::Learning => PortState::Forwarding,
                    PortState::Forwarding => PortState::Forwarding,
                })
                &&& !p.config.portfast && p.role == q.role && q.state != p.state ==> q.state_since
                    == now
            }
        }),
{
    assert(after.ports.entries@[i].1 == crate::stp::stepped(
        before.ports.entries@,
        i,
        pass,
        before.config,
        now,
    ));
}

/// With spanning tree off whatever has link forwards, unless it is
/// errdisabled, and nothing is sent.
pub proof fn lemma_off_forwards(before: Engine, after: Engine, out: Output, pass: Pass, now: u64, i: int)
    requires
        crate::stp::passed(before, after, out, pass, now),
        before.config.mode == Mode::Off,
        0 <= i < before.ports.entries@.len(),
    ensures
        ({
            let p = before.ports.entries@[i].1;
            let q = after.ports.entries@[i].1;
            &&& q.state == PortState::Forwarding <==> p.link_up && !p.errdisabled
            &&& q.state == PortState::Discarding <==> !p.link_up || p.errdisabled
            &&& out.bpdu_out.deep_view().len() == 0
            &&& after.topology_changes == before.topology_changes
        }),
{
    assert(after.ports.entries@[i].1 == crate::stp::stepped(
        before.ports.entries@,
        i,
        pass,
        before.config,
        now,
    ));
    lemma_off_sends_nothing(
        before.ports.entries@,
        pass,
        before.config,
        before.bridge_mac@,
        now,
        before.ports.entries@.len() as int,
    );
}

proof fn lemma_off_sends_nothing(
    ports: Seq<(String, Port)>,
    pass: Pass,
    c: Config,
    mac: Seq<u8>,
    now: u64,
    n: int,
)
    requires
        c.mode == Mode::Off,
    ensures
        crate::stp::frames(ports, pass, c, mac, now, n).len() == 0,
    decreases n,
{
    if n > 0 {
        lemma_off_sends_nothing(ports, pass, c, mac, now, n - 1);
    }
}

/// The BPDU that a port sends: the root and the cost as the bridge knows them,
/// the bridge itself, and the port by its priority and number.
pub open spec fn hello(before: Engine, pass: Pass, i: int) -> (Seq<char>, Seq<u8>) {
    (
        before.ports.entries@[i].0@,
        crate::stp::bpdu_bytes(
            before.bridge_mac@,
            true,
            pass.root,
            pass.cost,
            BridgeId { priority: before.config.priority, mac: before.bridge_mac },
            crate::stp::port_id(before.ports.entries@[i].1),
            before.config.hello_time,
            before.config.max_age,
            before.config.forward_time,
        ),
    )
}

/// Designated ports send a BPDU when they never sent one, and again when the
/// hello time is over; no other port sends any.
pub proof fn lemma_designated_ports_send(
    before: Engine,
    after: Engine,
    out: Output,
    pass: Pass,
    now: u64,
    i: int,
)
    requires
        crate::stp::is_pass(
            pass,
            before.ports.entries@,
            before.own_id(),
            before.config.max_age,
            now,
        ),
        crate::stp::passed(before, after, out, pass, now),
        before.config.mode != Mode::Off,
        before.config.hello_time > 0,
        before.room(),
        0 <= i < before.ports.entries@.len(),
    ensures
        ({
            let p = before.ports.entries@[i].1;
            let q = after.ports.entries@[i].1;
            let due = p.last_tx is None || (now > p.last_tx->0 && now - p.last_tx->0
                >= before.config.hello_time * 1000);
            &&& q.role == Role::Designated && due ==> {
                &&& out.bpdu_out.deep_view().contains(hello(before, pass, i))
                &&& q.last_tx == Some(now)
                &&& q.bpdus_tx == p.bpdus_tx + 1
            }
            &&& q.role != Role::Designated || !due ==> q.last_tx == p.last_tx && q.bpdus_tx
                == p.bpdus_tx
        }),
{
    let ports = before.ports.entries@;
    assert(after.ports.entries@[i].1 == crate::stp::stepped(ports, i, pass, before.config, now));
    let p = ports[i].1;
    assert(p.bpdus_tx < u64::MAX);
    if crate::stp::port_sends(
        p,
        crate::stp::is_root_port(pass, i),
        pass.root,
        pass.cost as int,
        pass.bridge,
        before.config,
        now,
    ) {
        lemma_sent(before, pass, now, i, ports.len() as int);
    }
}

proof fn lemma_sent(before: Engine, pass: Pass, now: u64, i: int, n: int)
    requires
        before.config.mode != Mode::Off,
        pass.bridge == before.own_id(),
        0 <= i < n <= before.ports.entries@.len(),
        crate::stp::port_sends(
            before.ports.entries@[i].1,
            crate::stp::is_root_port(pass, i),
            pass.root,
            pass.cost as int,
            pass.bridge,
            before.config,
            now,
        ),
    ensures
        crate::stp::frames(
            before.ports.entries@,
            pass,
            before.config,
            before.bridge_mac@,
            now,
            n,
        ).contains(hello(before, pass, i)),
    decreases n,
{
    let ports = before.ports.entries@;
    let c = before.config;
    let mac = before.bridge_mac@;
    let front = crate::stp::frames(ports, pass, c, mac, now, n - 1);
    let all = crate::stp::frames(ports, pass, c, mac, now, n);
    if n - 1 == i {
        assert(all[all.len() - 1] == hello(before, pass, i));
    } else {
        lemma_sent(before, pass, now, i, n - 1);
        let k = choose|k: int| 0 <= k < front.len() && front[k] == hello(before, pass, i);
        assert(all[k] == front[k]);
    }
}

/// No BPDU goes out but a hello of a port that is designated after the pass.
pub proof fn lemma_only_designated_ports_send(
    before: Engine,
    after: Engine,
    out: Output,
    pass: Pass,
    now: u64,
    k: int,
)
    requires
        crate::stp::is_pass(
            pass,
            before.ports.entries@,
            before.own_id(),
            before.config.max_age,
            now,
        ),
        crate::stp::passed(before, after, out, pass, now),
        0 <= k < out.bpdu_out.deep_view().len(),
    ensures
        exists|i: int|
            0 <= i < before.ports.entries@.len() && out.bpdu_out.deep_view()[k] == hello(
                before,
                pass,
                i,
            ) && (#[trigger] after.ports.entries@[i]).1.role == Role::Designated
                && after.ports.entries@[i].1.last_tx == Some(now)
                && before.ports.entries@[i].1.link_up,
{
    let ports = before.ports.entries@;
    let i = lemma_sender(before, pass, now, ports.len() as int, k);
    assert(after.ports.entries@[i].1 == crate::stp::stepped(ports, i, pass, before.config, now));
}

proof fn lemma_sender(before: Engine, pass: Pass, now: u64, n: int, k: int) -> (i: int)
    requires
        pass.bridge == before.own_id(),
        0 <= n <= before.ports.entries@.len(),
        0 <= k < crate::stp::frames(
            before.ports.entries@,
            pass,
            before.config,
            before.bridge_mac@,
            now,
            n,
        ).len(),
    ensures
        0 <= i < n,
        before.config.mode != Mode::Off,
        crate::stp::frames(
            before.ports.entries@,
            pass,
            before.config,
            before.bridge_mac@,
            now,
            n,
        )[k] == hello(before, pass, i),
        crate::stp::port_sends(
            before.ports.entries@[i].1,
            crate::stp::is_root_port(pass, i),
            pass.root,
            pass.cost as int,
            pass.bridge,
            before.config,
            now,
        ),
    decreases n,
{
    let front = crate::stp::frames(
        before.ports.entries@,
        pass,
        before.config,
        before.bridge_mac@,
        now,
        n - 1,
    );
    if k < front.len() {
        lemma_sender(before, pass, now, n - 1, k)
    } else {
        n - 1
    }
}

/// The topology changes when a port that is no edge port reaches forwarding,
/// once a pass however many do, and not otherwise. The last of them is named.
pub proof fn lemma_topology_changes(
    before: Engine,
    after: Engine,
    out: Output,
    pass: Pass,
    now: u64,
)
    requires
        crate::stp::passed(before, after, out, pass, now),
        before.config.mode != Mode::Off,
        before.config.forward_time > 0,
    ensures
        ({
            let a = before.ports.entries@;
            let b = after.ports.entries@;
            let changed = exists|i: int|
                0 <= i < a.len() && !a[i].1.config.portfast && a[i].1.state != PortState::Forwarding
                    && (#[trigger] b[i]).1.state == PortState::Forwarding;
            &&& changed ==> after.topology_changes == before.topology_changes + 1
                && (after.last_tc matches Some(tc) && tc.0 == now && (exists|i: int|
                0 <= i < a.len() && !a[i].1.config.portfast && a[i].1.state
                    != PortState::Forwarding && (#[trigger] b[i]).1.state == PortState::Forwarding
                    && b[i].0@ == tc.1@))
            &&& !changed ==> after.topology_changes == before.topology_changes && after.last_tc
                == before.last_tc
        }),
{
    let a = before.ports.entries@;
    let b = after.ports.entries@;
    let c = before.config;
    let n = a.len() as int;
    assert forall|i: int| 0 <= i < n implies (crate::stp::reaches_forwarding(
        a[i].1,
        crate::stp::is_root_port(pass, i),
        pass.root,
        pass.cost as int,
        pass.bridge,
        c,
        now,
    ) <==> !a[i].1.config.portfast && a[i].1.state != PortState::Forwarding && (
    #[trigger] b[i]).1.state == PortState::Forwarding) by {
        assert(b[i].1 == crate::stp::stepped(a, i, pass, c, now));
    }
    lemma_last_change(a, b, pass, c, now, n);
}

proof fn lemma_last_change(
    a: Seq<(String, Port)>,
    b: Seq<(String, Port)>,
    pass: Pass,
    c: Config,
    now: u64,
    n: int,
)
    requires
        0 <= n <= a.len() == b.len(),
        c.mode != Mode::Off,
        forall|i: int| 0 <= i < b.len() ==> (#[trigger] b[i]).0 == a[i].0,
        forall|i: int|
            0 <= i < b.len() ==> (crate::stp::reaches_forwarding(
                a[i].1,
                crate::stp::is_root_port(pass, i),
                pass.root,
                pass.cost as int,
                pass.bridge,
                c,
                now,
            ) <==> !a[i].1.config.portfast && a[i].1.state != PortState::Forwarding && (
            #[trigger] b[i]).1.state == PortState::Forwarding),
    ensures
        match crate::stp::last_change(a, pass, c, now, n) {
            Some(port) => exists|i: int|
                0 <= i < n && !a[i].1.config.portfast && a[i].1.state != PortState::Forwarding && (
                #[trigger] b[i]).1.state == PortState::Forwarding && b[i].0@ == port,
            None => forall|i: int|
                0 <= i < n ==> a[i].1.config.portfast || a[i].1.state == PortState::Forwarding || (
                #[trigger] b[i]).1.state != PortState::Forwarding,
        },
    decreases n,
{
    if n > 0 {
        lemma_last_change(a, b, pass, c, now, n - 1);
        assert(b[n - 1].0 == a[n - 1].0);
    }
}

/// The states that are pushed: that of every port whose state is not the one
/// last pushed, and nothing else. A port without link discards.
pub proof fn lemma_changed_states_are_pushed(
    after: Seq<(String, Port)>,
    last: Map<Seq<char>, PortState>,
    i: int,
    k: int,
)
    requires
        0 <= i < after.len(),
    ensures
        ({
            let pushes = crate::stp::state_pushes(after, last, after.len() as int);
            let p = after[i].1;
            let told = if p.link_up || p.errdisabled {
                p.state
            } else {
                PortState::Discarding
            };
            &&& !last.dom().contains(after[i].0@) || last[after[i].0@] != told ==> pushes.contains(
                (after[i].0@, told),
            )
            &&& 0 <= k < pushes.len() ==> !last.dom().contains(pushes[k].0) || last[pushes[k].0]
                != pushes[k].1
        }),
{
    let e = after[i].0@;
    if !last.dom().contains(e) || last[e] != crate::stp::shown_state(after[i].1) {
        lemma_pushed(after, last, i, after.len() as int);
    }
    lemma_pushes_differ(after, last, after.len() as int, k);
}

proof fn lemma_pushed(
    after: Seq<(String, Port)>,
    last: Map<Seq<char>, PortState>,
    i: int,
    n: int,
)
    requires
        0 <= i < n <= after.len(),
        !last.dom().contains(after[i].0@) || last[after[i].0@] != crate::stp::shown_state(
            after[i].1,
        ),
    ensures
        crate::stp::state_pushes(after, last, n).contains(
            (after[i].0@, crate::stp::shown_state(after[i].1)),
        ),
    decreases n,
{
    let e = (after[i].0@, crate::stp::shown_state(after[i].1));
    let front = crate::stp::state_pushes(after, last, n - 1);
    let all = crate::stp::state_pushes(after, last, n);
    if n - 1 == i {
        assert(all[all.len() - 1] == e);
    } else {
        lemma_pushed(after, last, i, n - 1);
        let k = choose|k: int| 0 <= k < front.len() && front[k] == e;
        assert(all[k] == e);
    }
}

proof fn lemma_pushes_differ(
    after: Seq<(String, Port)>,
    last: Map<Seq<char>, PortState>,
    n: int,
    k: int,
)
    ensures
        ({
            let pushes = crate::stp::state_pushes(after, last, n);
            0 <= k < pushes.len() ==> !last.dom().contains(pushes[k].0) || last[pushes[k].0]
                != pushes[k].1
        }),
    decreases n,
{
    if n > 0 {
        lemma_pushes_differ(after, last, n - 1, k);
    }
}

/// A BPDU byte by byte, where another bridge reads it: the group address, the
/// sender, the length, the LLC header, protocol 0, version and type, no flags,
/// the priority vector, no message age, and the timers in whole seconds.
pub proof fn lemma_bpdu_layout(
    src_mac: Seq<u8>,
    rstp: bool,
    root: BridgeId,
    cost: u32,
    bridge: BridgeId,
    port_id: u16,
    hello: u8,
    max_age: u8,
    forward_delay: u8,
)
    requires
        src_mac.len() == 6,
    ensures
        ({
            let f = crate::stp::bpdu_bytes(
                src_mac,
                rstp,
                root,
                cost,
                bridge,
                port_id,
                hello,
                max_age,
                forward_delay,
            );
            &&& f.subrange(0, 6) == seq![0x01u8, 0x80u8, 0xc2u8, 0u8, 0u8, 0u8]
            &&& f.subrange(6, 12) == src_mac
            &&& f[12] == 0 && f[13] == f.len() - 14
            &&& f.len() == if rstp {
                53nat
            } else {
                52
            }
            &&& f.subrange(14, 19) == seq![0x42u8, 0x42u8, 0x03u8, 0u8, 0u8]
            &&& f[19] == f[20] && f[20] == if rstp {
                2u8
            } else {
                0
            }
            &&& f[21] == 0
            &&& f.subrange(24, 30) == root.mac@
            &&& f.subrange(36, 42) == bridge.mac@
            &&& f.subrange(44, 52) == seq![0u8, 0u8, max_age, 0u8, hello, 0u8, forward_delay, 0u8]
            &&& rstp ==> f[52] == 0
        }),
{
    let f = crate::stp::bpdu_bytes(
        src_mac,
        rstp,
        root,
        cost,
        bridge,
        port_id,
        hello,
        max_age,
        forward_delay,
    );
    let body = crate::stp::bpdu_body(
        rstp,
        root,
        cost,
        bridge,
        port_id,
        hello,
        max_age,
        forward_delay,
    );
    assert(crate::stp::STP_DST@.len() == 6);
    lemma_body_layout(rstp, root, cost, bridge, port_id, hello, max_age, forward_delay);
    let head = crate::stp::STP_DST@ + src_mac + crate::bytes::be16((body.len() + 3) as u16) + seq![
        0x42u8,
        0x42u8,
        3u8,
    ];
    assert(f =~= head + body);
    lemma_behind(head, body);
    assert(head.len() == 17);
    assert(f.subrange(0, 6) =~= seq![0x01u8, 0x80u8, 0xc2u8, 0u8, 0u8, 0u8]);
    assert(f.subrange(6, 12) =~= src_mac);
    assert(head[12] == crate::bytes::be16((body.len() + 3) as u16)[0]);
    assert(head[13] == crate::bytes::be16((body.len() + 3) as u16)[1]);
    assert(f.subrange(14, 19) =~= seq![0x42u8, 0x42u8, 0x03u8, 0u8, 0u8]);
    assert(f.subrange(24, 30) =~= body.subrange(7, 13));
    assert(f.subrange(36, 42) =~= body.subrange(19, 25));
    assert(f.subrange(44, 52) =~= body.subrange(27, 35));
}

proof fn lemma_behind(head: Seq<u8>, body: Seq<u8>)
    ensures
        forall|i: int| 0 <= i < body.len() ==> (head + body)[head.len() + i] == #[trigger] body[i],
{
}

proof fn lemma_body_layout(
    rstp: bool,
    root: BridgeId,
    cost: u32,
    bridge: BridgeId,
    port_id: u16,
    hello: u8,
    max_age: u8,
    forward_delay: u8,
)
    ensures
        ({
            let b = crate::stp::bpdu_body(
                rstp,
                root,
                cost,
                bridge,
                port_id,
                hello,
                max_age,
                forward_delay,
            );
            let v: u8 = if rstp {
                2
            } else {
                0
            };
            &&& b.len() == if rstp {
                36nat
            } else {
                35
            }
            &&& b[0] == 0 && b[1] == 0 && b[2] == v && b[3] == v && b[4] == 0
            &&& b.subrange(7, 13) == root.mac@
            &&& b.subrange(19, 25) == bridge.mac@
            &&& b.subrange(27, 35) == seq![0u8, 0u8, max_age, 0u8, hello, 0u8, forward_delay, 0u8]
            &&& rstp ==> b[35] == 0
        }),
{
    let b = crate::stp::bpdu_body(
        rstp,
        root,
        cost,
        bridge,
        port_id,
        hello,
        max_age,
        forward_delay,
    );
    assert(b.subrange(7, 13) =~= root.mac@);
    assert(b.subrange(19, 25) =~= bridge.mac@);
    assert(b.subrange(27, 35) =~= seq![0u8, 0u8, max_age, 0u8, hello, 0u8, forward_delay, 0u8]);
}

/// A port identifier is the priority and then the number.
pub proof fn lemma_port_ids(p: Port)
    requires
        p.port_number < 0x100,
    ensures
        crate::stp::port_id(p) == p.config.priority * 0x100 + p.port_number,
{
    let a = p.config.priority as u16;
    let b = p.port_number;
    assert(((a << 8u16) | b) == a * 0x100 + b) by (bit_vector)
        requires
            a < 0x100,
            b < 0x100,
    ;
}

/// A link event: a change of the link starts the port over, and what it heard
/// is forgotten; without one only the speed is taken note of, where it is
/// known.
pub proof fn lemma_link_events(p: Port, up: bool, speed_mbps: u32, now: u64)
    ensures
        ({
            let q = crate::stp::linked(p, up, speed_mbps, now);
            &&& q.link_up == up
            &&& speed_mbps > 0 ==> q.speed_mbps == speed_mbps
            &&& speed_mbps == 0 ==> q.speed_mbps == p.speed_mbps
            &&& p.link_up != up ==> q.received is None && q.last_rx is None && q.state
                == PortState::Discarding && q.state_since == now
            &&& p.link_up == up ==> q.received == p.received && q.last_rx == p.last_rx && q.state
                == p.state && q.state_since == p.state_since
            &&& q.errdisabled == p.errdisabled && q.role == p.role && q.port_number
                == p.port_number && q.bpdus_rx == p.bpdus_rx && q.bpdus_tx == p.bpdus_tx
                && q.last_tx == p.last_tx
            &&& q.config.portfast == p.config.portfast && q.config.bpduguard == p.config.bpduguard
                && q.config.cost == p.config.cost
            &&& p.config.priority != 0 ==> q.config.priority == p.config.priority
            &&& p.config.priority == 0 ==> q.config.priority == 128
        }),
{
}

/// A BPDU: a guarded port is errdisabled, an unguarded one takes the vector
/// and the moment, an errdisabled one only counts.
pub proof fn lemma_bpdus_are_told(p: Port, v: PriorityVector, now: u64)
    requires
        p.bpdus_rx < u64::MAX,
    ensures
        ({
            let q = crate::stp::told(p, v, now);
            &&& q.bpdus_rx == p.bpdus_rx + 1
            &&& p.errdisabled ==> q.errdisabled && q.received == p.received && q.last_rx
                == p.last_rx
            &&& !p.errdisabled && p.config.bpduguard ==> q.errdisabled && q.state
                == PortState::Discarding && q.received == p.received
            &&& !p.errdisabled && !p.config.bpduguard ==> !q.errdisabled && q.received == Some(v)
                && q.last_rx == Some(now) && q.state == p.state
            &&& q.link_up == p.link_up && q.config == p.config && q.role == p.role && q.speed_mbps
                == p.speed_mbps && q.bpdus_tx == p.bpdus_tx && q.state_since == p.state_since
            &&& crate::stp::guard_trips(p) <==> !p.errdisabled && p.config.bpduguard
        }),
{
}

/// A new configuration: a port has its own, or none; a priority of 128 where
/// it names none; and stays errdisabled only while it is guarded. What the
/// bridge is not told has its default.
pub proof fn lemma_configurations_apply(
    p: Port,
    c: Config,
    name: Seq<char>,
)
    ensures
        ({
            let q = crate::stp::reconfigured(p, crate::stp::port_config(c.ports@, name));
            let own = c.ports@[name];
            let d = crate::stp::with_defaults(c);
            &&& c.ports@.dom().contains(name) ==> q.config == (PortConfig {
                priority: if own.priority == 0 {
                    128
                } else {
                    own.priority
                },
                ..own
            })
            &&& !c.ports@.dom().contains(name) ==> q.config == (PortConfig {
                portfast: false,
                bpduguard: false,
                cost: None,
                priority: 128,
            })
            &&& q.errdisabled <==> p.errdisabled && c.ports@.dom().contains(name) && own.bpduguard
            &&& q.link_up == p.link_up && q.received == p.received && q.last_rx == p.last_rx
                && q.role == p.role && q.state == p.state && q.state_since == p.state_since
            &&& d.priority == (if c.priority == 0 {
                32768u16
            } else {
                c.priority
            })
            &&& d.hello_time == (if c.hello_time == 0 {
                2u8
            } else {
                c.hello_time
            })
            &&& d.max_age == (if c.max_age == 0 {
                20u8
            } else {
                c.max_age
            })
            &&& d.forward_time == (if c.forward_time == 0 {
                15u8
            } else {
                c.forward_time
            })
            &&& d.mode == c.mode && d.ports == c.ports && d.instances == c.instances
                && d.mst_name == c.mst_name && d.mst_revision == c.mst_revision
        }),
{
}

/// A port that has link or is errdisabled is shown, as it is; one that is down
/// is not.
pub proof fn lemma_ports_are_shown(ports: Seq<(String, Port)>, e: (String, Port))
    ensures
        ({
            let had = crate::stp::shown_ports(ports, ports.len() as int);
            let has = crate::stp::shown_ports(ports.push(e), ports.len() as int + 1);
            &&& e.1.link_up || e.1.errdisabled ==> has == had.push(e)
            &&& !e.1.link_up && !e.1.errdisabled ==> has == had
            &&& forall|r: crate::stp::PortSnapshot| #[trigger]
                crate::stp::shows_port(r, e) ==> r.cost == link_cost(e.1) && r.role == e.1.role
                    && r.state == e.1.state && r.port@ == e.0@ && r.bpdus_rx == e.1.bpdus_rx
                    && r.bpdus_tx == e.1.bpdus_tx && r.errdisabled == e.1.errdisabled && r.priority
                    == e.1.config.priority && r.portfast == e.1.config.portfast && r.bpduguard
                    == e.1.config.bpduguard
        }),
{
    lemma_shown_prefix(ports.push(e), ports, ports.len() as int);
    lemma_costs(e.1);
}

proof fn lemma_shown_prefix(a: Seq<(String, Port)>, b: Seq<(String, Port)>, n: int)
    requires
        n <= a.len(),
        n <= b.len(),
        forall|i: int| 0 <= i < n ==> a[i] == b[i],
    ensures
        crate::stp::shown_ports(a, n) == crate::stp::shown_ports(b, n),
    decreases n,
{
    if n > 0 {
        lemma_shown_prefix(a, b, n - 1);
    }
}

} // verus!
