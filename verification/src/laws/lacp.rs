//! Laws of link aggregation.

use vstd::prelude::*;

use crate::lacp::{Fallback, Lag, LagConfig, Member, Mode, Partner};

verus! {

/// The partner was heard within three of the intervals asked of it: 3 seconds
/// on a fast member, 90 on a slow one.
pub open spec fn heard(m: Member, now: u64) -> bool {
    m.last_rx is Some && (now <= m.last_rx->0 || now - m.last_rx->0 < if m.config.rate_fast {
        3_000int
    } else {
        90_000
    })
}

/// Link up, and a partner that was heard and says that it is in sync.
pub open spec fn in_sync(m: Member, now: u64) -> bool {
    m.link_up && heard(m, now) && m.partner is Some && m.partner->0.state & 0x08 != 0
}

/// How many members satisfy a condition.
pub open spec fn count(ms: Seq<(String, Member)>, f: spec_fn(Member) -> bool) -> nat {
    ms.filter(|e: (String, Member)| f(e.1)).len()
}

/// The bits of a state octet are those of the standard.
pub proof fn lemma_state_bits(octet: u8)
    ensures
        crate::lacp::state::has(octet, crate::lacp::state::ACTIVITY) <==> octet & 0x01 != 0,
        crate::lacp::state::has(octet, crate::lacp::state::TIMEOUT) <==> octet & 0x02 != 0,
        crate::lacp::state::has(octet, crate::lacp::state::AGGREGATION) <==> octet & 0x04 != 0,
        crate::lacp::state::has(octet, crate::lacp::state::SYNC) <==> octet & 0x08 != 0,
        crate::lacp::state::has(octet, crate::lacp::state::COLLECTING) <==> octet & 0x10 != 0,
        crate::lacp::state::has(octet, crate::lacp::state::DISTRIBUTING) <==> octet & 0x20 != 0,
        crate::lacp::state::has(octet, crate::lacp::state::DEFAULTED) <==> octet & 0x40 != 0,
        crate::lacp::state::has(octet, crate::lacp::state::EXPIRED) <==> octet & 0x80 != 0,
{
    assert((octet / 0x01 % 2 == 1) == (octet & 0x01 != 0) && (octet / 0x02 % 2 == 1) == (octet
        & 0x02 != 0) && (octet / 0x04 % 2 == 1) == (octet & 0x04 != 0) && (octet / 0x08 % 2 == 1)
        == (octet & 0x08 != 0) && (octet / 0x10 % 2 == 1) == (octet & 0x10 != 0) && (octet / 0x20
        % 2 == 1) == (octet & 0x20 != 0) && (octet / 0x40 % 2 == 1) == (octet & 0x40 != 0) && (
    octet / 0x80 % 2 == 1) == (octet & 0x80 != 0)) by (bit_vector);
}

proof fn lemma_counted(lag: Lag, now: u64, f: spec_fn(Member) -> bool, n: int)
    requires
        0 <= n <= lag.members.entries@.len(),
        forall|i: int|
            0 <= i < n ==> crate::lacp::wants(lag, now, i) == (
                f((#[trigger] lag.members.entries@[i]).1),
                false,
            ),
    ensures
        crate::lacp::bundle_count(lag, now, n) == count(lag.members.entries@.take(n), f),
    decreases n,
{
    reveal(Seq::filter);
    let ms = lag.members.entries@;
    if n > 0 {
        lemma_counted(lag, now, f, n - 1);
        assert(ms.take(n).drop_last() =~= ms.take(n - 1));
        assert(ms.take(n).last() == ms[n - 1]);
        assert(crate::lacp::wants(lag, now, n - 1) == (f(ms[n - 1].1), false));
    } else {
        assert(ms.take(0).filter(|e: (String, Member)| f(e.1)).len() == 0);
    }
}

/// Under LACP, with a partner or before the fallback, a gate is open exactly
/// where the member is in sync with its partner, and enough members are.
pub proof fn lemma_lacp_gates(lag: Lag, now: u64, i: int)
    requires
        0 <= i < lag.members.entries@.len(),
        lag.config.members.entries@.len() > 0,
        lag.config.members.entries@[0].1.mode != Mode::On,
        lag.config.fallback is None || (exists|j: int|
            0 <= j < lag.members.entries@.len() && heard(
                (#[trigger] lag.members.entries@[j]).1,
                now,
            )) || (lag.config.fallback_timeout > 0 && now < lag.partnerless_since
            + lag.config.fallback_timeout),
    ensures
        ({
            let ms = lag.members.entries@;
            let f = |m: Member| in_sync(m, now);
            crate::lacp::gate(lag, now, i) <==> in_sync(ms[i].1, now) && count(ms, f)
                >= lag.config.min_links
        }),
        !crate::lacp::wants(lag, now, i).1,
        !crate::lacp::fallen_back(lag, now),
{
    let ms = lag.members.entries@;
    let f = |m: Member| in_sync(m, now);
    if exists|j: int| 0 <= j < ms.len() && heard((#[trigger] ms[j]).1, now) {
        let j = choose|j: int| 0 <= j < ms.len() && heard((#[trigger] ms[j]).1, now);
        assert(crate::lacp::current(ms[j].1, now));
    }
    assert(!crate::lacp::fallen_back(lag, now));
    assert forall|k: int| 0 <= k < ms.len() implies crate::lacp::wants(lag, now, k) == (
        f((#[trigger] ms[k]).1),
        false,
    ) by {
        if ms[k].1.partner is Some {
            lemma_state_bits(ms[k].1.partner->0.state);
        }
    }
    lemma_counted(lag, now, f, ms.len() as int);
    assert(ms.take(ms.len() as int) =~= ms);
    assert(ms[i].1 == ms[i].1);
}

/// A static aggregate lets every member with link forward, where enough
/// members have link.
pub proof fn lemma_static_gates(lag: Lag, now: u64, i: int)
    requires
        0 <= i < lag.members.entries@.len(),
        lag.config.members.entries@.len() > 0,
        lag.config.members.entries@[0].1.mode == Mode::On,
    ensures
        ({
            let ms = lag.members.entries@;
            let f = |m: Member| m.link_up;
            crate::lacp::gate(lag, now, i) <==> ms[i].1.link_up && count(ms, f)
                >= lag.config.min_links
        }),
        !crate::lacp::wants(lag, now, i).1,
{
    let ms = lag.members.entries@;
    let f = |m: Member| m.link_up;
    assert forall|k: int| 0 <= k < ms.len() implies crate::lacp::wants(lag, now, k) == (
        f((#[trigger] ms[k]).1),
        false,
    ) by {}
    lemma_counted(lag, now, f, ms.len() as int);
    assert(ms.take(ms.len() as int) =~= ms);
    assert(ms[i].1 == ms[i].1);
}

/// Fallback sets in when no partner has been heard for the timeout. A static
/// fallback then lets every member with link forward, where enough have
/// link.
pub proof fn lemma_static_fallback(lag: Lag, now: u64, i: int)
    requires
        0 <= i < lag.members.entries@.len(),
        lag.config.members.entries@.len() > 0,
        lag.config.members.entries@[0].1.mode != Mode::On,
        lag.config.fallback == Some(Fallback::Static),
        now >= lag.partnerless_since + lag.config.fallback_timeout,
        forall|j: int|
            0 <= j < lag.members.entries@.len() ==> !heard(
                (#[trigger] lag.members.entries@[j]).1,
                now,
            ),
    ensures
        crate::lacp::fallen_back(lag, now),
        ({
            let ms = lag.members.entries@;
            let f = |m: Member| m.link_up;
            crate::lacp::gate(lag, now, i) <==> ms[i].1.link_up && count(ms, f)
                >= lag.config.min_links
        }),
        !crate::lacp::wants(lag, now, i).1,
{
    let ms = lag.members.entries@;
    let f = |m: Member| m.link_up;
    lemma_nobody_heard(lag, now);
    assert forall|k: int| 0 <= k < ms.len() implies crate::lacp::wants(lag, now, k) == (
        f((#[trigger] ms[k]).1),
        false,
    ) by {}
    lemma_counted(lag, now, f, ms.len() as int);
    assert(ms.take(ms.len() as int) =~= ms);
    assert(ms[i].1 == ms[i].1);
}

proof fn lemma_nobody_heard(lag: Lag, now: u64)
    requires
        lag.config.members.entries@.len() > 0,
        lag.config.members.entries@[0].1.mode != Mode::On,
        lag.config.fallback is Some,
        now >= lag.partnerless_since + lag.config.fallback_timeout,
        forall|j: int|
            0 <= j < lag.members.entries@.len() ==> !heard(
                (#[trigger] lag.members.entries@[j]).1,
                now,
            ),
    ensures
        crate::lacp::fallen_back(lag, now),
{
    let ms = lag.members.entries@;
    if crate::lacp::heard_any(ms, now) {
        let j = choose|j: int| 0 <= j < ms.len() && crate::lacp::current((#[trigger] ms[j]).1, now);
        assert(heard(ms[j].1, now));
    }
}

/// An individual fallback lets exactly one member with link forward by itself,
/// whatever min-links says: the one of the lowest port priority, and of those
/// the lowest port number.
pub proof fn lemma_individual_fallback(lag: Lag, now: u64, i: int)
    requires
        0 <= i < lag.members.entries@.len(),
        lag.config.members.entries@.len() > 0,
        lag.config.members.entries@[0].1.mode != Mode::On,
        lag.config.fallback == Some(Fallback::Individual),
        now >= lag.partnerless_since + lag.config.fallback_timeout,
        forall|j: int|
            0 <= j < lag.members.entries@.len() ==> !heard(
                (#[trigger] lag.members.entries@[j]).1,
                now,
            ),
    ensures
        crate::lacp::fallen_back(lag, now),
        crate::lacp::wants(lag, now, i).1 == crate::lacp::gate(lag, now, i),
        ({
            let ms = lag.members.entries@;
            &&& crate::lacp::gate(lag, now, i) ==> ms[i].1.link_up && forall|j: int|
                0 <= j < ms.len() && (#[trigger] ms[j]).1.link_up ==> {
                    ||| ms[i].1.config.port_priority < ms[j].1.config.port_priority
                    ||| ms[i].1.config.port_priority == ms[j].1.config.port_priority
                        && ms[i].1.port_number <= ms[j].1.port_number
                }
            &&& ms[i].1.link_up && (forall|j: int|
                0 <= j < ms.len() && j != i && (#[trigger] ms[j]).1.link_up ==> {
                    ||| ms[i].1.config.port_priority < ms[j].1.config.port_priority
                    ||| ms[i].1.config.port_priority == ms[j].1.config.port_priority
                        && ms[i].1.port_number < ms[j].1.port_number
                }) ==> crate::lacp::gate(lag, now, i)
        }),
{
    lemma_nobody_heard(lag, now);
    let ms = lag.members.entries@;
    assert(crate::lacp::wants(lag, now, i) == (
        crate::lacp::chosen(ms, i),
        crate::lacp::chosen(ms, i),
    ));
    assert(crate::lacp::chosen(ms, i) ==> forall|j: int|
        0 <= j < ms.len() && (#[trigger] ms[j]).1.link_up ==> i == j || crate::lacp::outranks(
            ms[i].1,
            ms[j].1,
        ) || (!crate::lacp::outranks(ms[j].1, ms[i].1) && i < j));
}

/// A pass: a member's gate is the one it has then, and every change of it
/// counts as churn. The fallback clock starts over while a partner is heard.
/// What was told and heard stays.
pub proof fn lemma_pass_opens_gates(before: Lag, after: Lag, now: u64, i: int)
    requires
        crate::lacp::is_stepped(before, after, now),
        crate::lacp::members_fit(before.members.entries@),
        0 <= i < before.members.entries@.len(),
    ensures
        ({
            let a = before.members.entries@[i].1;
            let b = after.members.entries@[i].1;
            let listening = exists|j: int|
                0 <= j < before.members.entries@.len() && heard(
                    (#[trigger] before.members.entries@[j]).1,
                    now,
                );
            &&& after.members.entries@[i].0 == before.members.entries@[i].0
            &&& b.bundled == crate::lacp::gate(before, now, i)
            &&& b.individual == (crate::lacp::wants(before, now, i).1)
            &&& b.bundled != a.bundled ==> b.churn == a.churn + 1
            &&& b.bundled == a.bundled ==> b.churn == a.churn
            &&& b.partner == a.partner && b.last_rx == a.last_rx && b.link_up == a.link_up
                && b.pdus_rx == a.pdus_rx && b.config == a.config && b.port_number == a.port_number
            &&& listening ==> after.partnerless_since == now && !after.fallback_active
            &&& !listening ==> after.partnerless_since == before.partnerless_since
            &&& after.fallback_active && before.config.fallback_timeout > 0
                ==> before.config.fallback is Some && now >= before.partnerless_since
                + before.config.fallback_timeout
        }),
{
    let ms = before.members.entries@;
    assert(after.members.entries@[i].1 == crate::lacp::stepped(before, now, i));
    assert(ms[i].1.churn < u32::MAX);
    if crate::lacp::heard_any(ms, now) {
        let j = choose|j: int| 0 <= j < ms.len() && crate::lacp::current((#[trigger] ms[j]).1, now);
        assert(heard(ms[j].1, now));
    }
    if exists|j: int| 0 <= j < ms.len() && heard((#[trigger] ms[j]).1, now) {
        let j = choose|j: int| 0 <= j < ms.len() && heard((#[trigger] ms[j]).1, now);
        assert(crate::lacp::current(ms[j].1, now));
    }
}

/// A member transmits when its link is up, it is active or hears its partner,
/// and it never did or its interval is over: a second where the partner asks
/// for the short timeout, or without one the member is fast, else thirty.
pub proof fn lemma_transmissions(before: Lag, after: Lag, now: u64, i: int)
    requires
        crate::lacp::is_stepped(before, after, now),
        crate::lacp::members_fit(before.members.entries@),
        0 <= i < before.members.entries@.len(),
        before.config.members.entries@.len() > 0,
    ensures
        ({
            let a = before.members.entries@[i].1;
            let b = after.members.entries@[i].1;
            let fast = if heard(a, now) && a.partner is Some {
                a.partner->0.state & 0x02 != 0
            } else {
                a.config.rate_fast
            };
            let over = a.last_tx is None || (now > a.last_tx->0 && now - a.last_tx->0 >= if fast {
                1_000int
            } else {
                30_000
            });
            let sends = before.config.members.entries@[0].1.mode != Mode::On && a.link_up && (
            a.config.mode == Mode::Active || heard(a, now)) && over;
            &&& sends ==> b.last_tx == Some(now) && b.pdus_tx == a.pdus_tx + 1
            &&& !sends ==> b.last_tx == a.last_tx && b.pdus_tx == a.pdus_tx
        }),
{
    assert(after.members.entries@[i].1 == crate::lacp::stepped(before, now, i));
    let a = before.members.entries@[i].1;
    assert(a.pdus_tx < u64::MAX);
    if a.partner is Some {
        lemma_state_bits(a.partner->0.state);
    }
}

/// What a member that transmits in a pass puts on the wire, and that nothing
/// else goes out.
pub proof fn lemma_frames_of_a_pass(
    before: Lag,
    after: Lag,
    system_priority: u16,
    system_mac: Seq<u8>,
    now: u64,
    n: int,
)
    requires
        crate::lacp::is_stepped(before, after, now),
        crate::lacp::members_fit(before.members.entries@),
        0 <= n < before.members.entries@.len(),
    ensures
        ({
            let had = crate::lacp::lag_frames(before, system_priority, system_mac, now, n);
            let got = crate::lacp::lag_frames(before, system_priority, system_mac, now, n + 1);
            let a = before.members.entries@[n].1;
            let b = after.members.entries@[n].1;
            &&& b.pdus_tx == a.pdus_tx ==> got == had
            &&& b.pdus_tx != a.pdus_tx ==> got == had.push(
                (
                    before.members.entries@[n].0@,
                    crate::lacp::pdu_bytes(
                        system_mac,
                        system_priority,
                        system_mac,
                        before.config.group,
                        a.config.port_priority,
                        a.port_number,
                        crate::lacp::actor_state(b, heard(a, now)) as u8,
                        if heard(a, now) {
                            a.partner
                        } else {
                            None
                        },
                    ),
                ),
            )
        }),
{
    assert(after.members.entries@[n].1 == crate::lacp::stepped(before, now, n));
    let a = before.members.entries@[n].1;
    assert(a.pdus_tx < u64::MAX);
    assert(crate::lacp::current(a, now) == heard(a, now));
}

/// The state octet that a member sends: it always can aggregate; it is active,
/// asks for the short timeout, is in sync, collects and distributes as it does;
/// without a partner it is defaulted, and expired where it had one.
pub proof fn lemma_actor_octet(m: Member, current: bool)
    ensures
        ({
            let o = crate::lacp::actor_state(m, current);
            let octet = o as u8;
            &&& 0 <= o <= 255
            &&& octet & 0x04 != 0
            &&& octet & 0x01 != 0 <==> m.config.mode == Mode::Active
            &&& octet & 0x02 != 0 <==> m.config.rate_fast
            &&& octet & 0x08 != 0 <==> m.link_up && (current || m.config.mode == Mode::On)
            &&& octet & 0x10 != 0 <==> m.bundled
            &&& octet & 0x20 != 0 <==> m.bundled
            &&& octet & 0x40 != 0 <==> !current
            &&& octet & 0x80 != 0 <==> !current && m.partner is Some
        }),
{
    let a: u8 = if m.config.mode == Mode::Active {
        1
    } else {
        0
    };
    let t: u8 = if m.config.rate_fast {
        1
    } else {
        0
    };
    let s: u8 = if m.link_up && (current || m.config.mode == Mode::On) {
        1
    } else {
        0
    };
    let b: u8 = if m.bundled {
        1
    } else {
        0
    };
    let d: u8 = if current {
        0
    } else {
        1
    };
    let e: u8 = if !current && m.partner is Some {
        1
    } else {
        0
    };
    let octet = crate::lacp::actor_state(m, current) as u8;
    assert(octet == 4 + a + 2 * t + 8 * s + 48 * b + 64 * d + 128 * e);
    assert(octet & 0x04 != 0 && (octet & 0x01 != 0) == (a == 1) && (octet & 0x02 != 0) == (t == 1)
        && (octet & 0x08 != 0) == (s == 1) && (octet & 0x10 != 0) == (b == 1) && (octet & 0x20
        != 0) == (b == 1) && (octet & 0x40 != 0) == (d == 1) && (octet & 0x80 != 0) == (e == 1))
        by (bit_vector)
        requires
            octet == 4 + a + 2 * t + 8 * s + 48 * b + 64 * d + 128 * e,
            a <= 1,
            t <= 1,
            s <= 1,
            b <= 1,
            d <= 1,
            e <= 1,
    ;
}

/// An LACPDU byte by byte: the group address, the sender, the protocol, the
/// actor's information, the partner's as the sender knows it or zeros, the
/// collector's, and padding.
pub proof fn lemma_pdu_layout(
    src_mac: Seq<u8>,
    system_priority: u16,
    system_mac: Seq<u8>,
    key: u16,
    port_priority: u16,
    port: u16,
    octet: u8,
    partner: Option<Partner>,
)
    requires
        src_mac.len() == 6,
        system_mac.len() == 6,
    ensures
        ({
            let f = crate::lacp::pdu_bytes(
                src_mac,
                system_priority,
                system_mac,
                key,
                port_priority,
                port,
                octet,
                partner,
            );
            &&& f.len() == 124
            &&& f.subrange(0, 6) == seq![0x01u8, 0x80u8, 0xc2u8, 0u8, 0u8, 0x02u8]
            &&& f.subrange(6, 12) == src_mac
            &&& crate::bytes::word16(f, 12) == 0x8809
            &&& f[14] == 1 && f[15] == 1 && f[16] == 1 && f[17] == 20
            &&& crate::bytes::word16(f, 18) == system_priority
            &&& f.subrange(20, 26) == system_mac
            &&& crate::bytes::word16(f, 26) == key
            &&& crate::bytes::word16(f, 28) == port_priority
            &&& crate::bytes::word16(f, 30) == port
            &&& f[32] == octet
            &&& f[36] == 2 && f[37] == 20
            &&& match partner {
                Some(p) => {
                    &&& crate::bytes::word16(f, 38) == p.system_priority
                    &&& f.subrange(40, 46) == p.system@
                    &&& crate::bytes::word16(f, 46) == p.key
                    &&& crate::bytes::word16(f, 48) == p.port_priority
                    &&& crate::bytes::word16(f, 50) == p.port
                    &&& f[52] == p.state
                },
                None => forall|i: int| 38 <= i < 56 ==> f[i] == 0,
            }
            &&& f[56] == 3 && f[57] == 16
        }),
{
    let f = crate::lacp::pdu_bytes(
        src_mac,
        system_priority,
        system_mac,
        key,
        port_priority,
        port,
        octet,
        partner,
    );
    let head = crate::lacp::LACP_DST@ + src_mac + crate::bytes::be16(crate::lacp::LACP_ETHERTYPE)
        + seq![1u8, 1u8, 1u8, 20u8];
    let actor = crate::lacp::port_info(
        system_priority,
        system_mac,
        key,
        port_priority,
        port,
        octet,
    );
    let theirs = crate::lacp::partner_info(partner);
    let tail = seq![3u8, 16u8] + crate::lacp::zeros(66);
    let mid = seq![2u8, 20u8];
    assert(crate::lacp::LACP_DST@.len() == 6);
    lemma_info(system_priority, system_mac, key, port_priority, port, octet);
    lemma_partner_len(partner);
    assert(head.len() == 18);
    assert(f =~= head + actor + mid + theirs + tail);
    lemma_five(head, actor, mid, theirs, tail);
    lemma_head(src_mac);
    assert(f.subrange(0, 6) =~= head.subrange(0, 6));
    assert(f.subrange(6, 12) =~= head.subrange(6, 12));
    assert(f.subrange(12, 14) =~= head.subrange(12, 14));
    crate::bytes::lemma_word16(f, 12, 0x8809);
    assert(f[14] == head[14] && f[15] == head[15] && f[16] == head[16] && f[17] == head[17]);
    assert(f[36] == mid[0] && f[37] == mid[1]);
    assert(f[56] == tail[0] && f[57] == tail[1]);
    lemma_info_at(f, 18, system_priority, system_mac, key, port_priority, port, octet);
    match partner {
        Some(p) => {
            lemma_info(p.system_priority, p.system@, p.key, p.port_priority, p.port, p.state);
            lemma_info_at(
                f,
                38,
                p.system_priority,
                p.system@,
                p.key,
                p.port_priority,
                p.port,
                p.state,
            );
        },
        None => {
            assert(theirs.len() == 18);
            assert forall|i: int| 38 <= i < 56 implies f[i] == 0 by {
                assert(f.subrange(38, 56)[i - 38] == 0);
            }
        },
    }
}

proof fn lemma_partner_len(partner: Option<Partner>)
    ensures
        crate::lacp::partner_info(partner).len() == 18,
{
    if let Some(p) = partner {
        lemma_info(p.system_priority, p.system@, p.key, p.port_priority, p.port, p.state);
    }
}

proof fn lemma_head(src_mac: Seq<u8>)
    requires
        src_mac.len() == 6,
    ensures
        ({
            let head = crate::lacp::LACP_DST@ + src_mac + crate::bytes::be16(
                crate::lacp::LACP_ETHERTYPE,
            ) + seq![1u8, 1u8, 1u8, 20u8];
            &&& head.subrange(0, 6) == seq![0x01u8, 0x80u8, 0xc2u8, 0u8, 0u8, 0x02u8]
            &&& head.subrange(6, 12) == src_mac
            &&& head.subrange(12, 14) == crate::bytes::be16(0x8809)
            &&& head[14] == 1 && head[15] == 1 && head[16] == 1 && head[17] == 20
        }),
{
    let head = crate::lacp::LACP_DST@ + src_mac + crate::bytes::be16(crate::lacp::LACP_ETHERTYPE)
        + seq![1u8, 1u8, 1u8, 20u8];
    assert(crate::lacp::LACP_DST@.len() == 6);
    assert(head.subrange(0, 6) =~= seq![0x01u8, 0x80u8, 0xc2u8, 0u8, 0u8, 0x02u8]);
    assert(head.subrange(6, 12) =~= src_mac);
    assert(head.subrange(12, 14) =~= crate::bytes::be16(0x8809));
}

proof fn lemma_five(a: Seq<u8>, b: Seq<u8>, c: Seq<u8>, d: Seq<u8>, e: Seq<u8>)
    requires
        a.len() == 18,
        b.len() == 18,
        c.len() == 2,
        d.len() == 18,
    ensures
        ({
            let f = a + b + c + d + e;
            &&& f.len() == 56 + e.len()
            &&& f.subrange(0, 18) == a
            &&& f.subrange(18, 36) == b
            &&& f.subrange(36, 38) == c
            &&& f.subrange(38, 56) == d
            &&& forall|i: int| 0 <= i < 18 ==> f[i] == a[i]
            &&& f[36] == c[0] && f[37] == c[1]
            &&& e.len() > 1 ==> f[56] == e[0] && f[57] == e[1]
        }),
{
    let f = a + b + c + d + e;
    assert(f.subrange(0, 18) =~= a);
    assert(f.subrange(18, 36) =~= b);
    assert(f.subrange(36, 38) =~= c);
    assert(f.subrange(38, 56) =~= d);
}

proof fn lemma_info(
    system_priority: u16,
    system: Seq<u8>,
    key: u16,
    port_priority: u16,
    port: u16,
    octet: u8,
)
    requires
        system.len() == 6,
    ensures
        ({
            let b = crate::lacp::port_info(system_priority, system, key, port_priority, port, octet);
            &&& b.len() == 18
            &&& b.subrange(0, 2) == crate::bytes::be16(system_priority)
            &&& b.subrange(2, 8) == system
            &&& b.subrange(8, 10) == crate::bytes::be16(key)
            &&& b.subrange(10, 12) == crate::bytes::be16(port_priority)
            &&& b.subrange(12, 14) == crate::bytes::be16(port)
            &&& b[14] == octet
        }),
{
    let b = crate::lacp::port_info(system_priority, system, key, port_priority, port, octet);
    assert(b.subrange(0, 2) =~= crate::bytes::be16(system_priority));
    assert(b.subrange(2, 8) =~= system);
    assert(b.subrange(8, 10) =~= crate::bytes::be16(key));
    assert(b.subrange(10, 12) =~= crate::bytes::be16(port_priority));
    assert(b.subrange(12, 14) =~= crate::bytes::be16(port));
}

proof fn lemma_info_at(
    f: Seq<u8>,
    at: int,
    system_priority: u16,
    system: Seq<u8>,
    key: u16,
    port_priority: u16,
    port: u16,
    octet: u8,
)
    requires
        system.len() == 6,
        0 <= at,
        at + 18 <= f.len(),
        f.subrange(at, at + 18) == crate::lacp::port_info(
            system_priority,
            system,
            key,
            port_priority,
            port,
            octet,
        ),
    ensures
        crate::bytes::word16(f, at) == system_priority,
        f.subrange(at + 2, at + 8) == system,
        crate::bytes::word16(f, at + 8) == key,
        crate::bytes::word16(f, at + 10) == port_priority,
        crate::bytes::word16(f, at + 12) == port,
        f[at + 14] == octet,
{
    lemma_info(system_priority, system, key, port_priority, port, octet);
    let b = f.subrange(at, at + 18);
    assert(f.subrange(at, at + 2) =~= b.subrange(0, 2));
    assert(f.subrange(at + 2, at + 8) =~= b.subrange(2, 8));
    assert(f.subrange(at + 8, at + 10) =~= b.subrange(8, 10));
    assert(f.subrange(at + 10, at + 12) =~= b.subrange(10, 12));
    assert(f.subrange(at + 12, at + 14) =~= b.subrange(12, 14));
    assert(f[at + 14] == b[14]);
    crate::bytes::lemma_word16(f, at, system_priority);
    crate::bytes::lemma_word16(f, at + 8, key);
    crate::bytes::lemma_word16(f, at + 10, port_priority);
    crate::bytes::lemma_word16(f, at + 12, port);
}

/// A lost link forgets the partner; a link that is up keeps it. A LACPDU gives
/// the partner and the moment. Nothing else of a member changes.
pub proof fn lemma_member_events(m: Member, up: bool, p: Partner, now: u64)
    requires
        m.pdus_rx < u64::MAX,
    ensures
        ({
            let a = crate::lacp::linked(m, up);
            let b = crate::lacp::told(m, p, now);
            &&& a.link_up == up
            &&& up ==> a.partner == m.partner && a.last_rx == m.last_rx
            &&& !up ==> a.partner is None && a.last_rx is None
            &&& a.config == m.config && a.bundled == m.bundled && a.last_tx == m.last_tx
                && a.pdus_rx == m.pdus_rx && a.pdus_tx == m.pdus_tx && a.churn == m.churn
                && a.port_number == m.port_number && a.individual == m.individual
            &&& b.partner == Some(p) && b.last_rx == Some(now) && b.pdus_rx == m.pdus_rx + 1
            &&& b.link_up == m.link_up && b.config == m.config && b.bundled == m.bundled
                && b.last_tx == m.last_tx && b.pdus_tx == m.pdus_tx && b.churn == m.churn
                && b.port_number == m.port_number && b.individual == m.individual
        }),
{
}

/// A configuration push: a member that stays keeps all but its configuration;
/// a new one starts without a partner, with the link state that is remembered
/// of its port; a member that is not named is gone. A LAG that stays keeps its
/// clock, a new one starts it.
pub proof fn lemma_config_push(
    had: Option<crate::lacp::LagModel>,
    config: LagConfig,
    links: Map<Seq<char>, bool>,
    now: u64,
    name: Seq<char>,
)
    ensures
        ({
            let got = crate::lacp::configured(had, config, links, now);
            let c = config.members@[name];
            &&& got.config == config
            &&& got.members.dom().contains(name) <==> config.members@.dom().contains(name)
            &&& config.members@.dom().contains(name) ==> {
                let m = got.members[name];
                &&& m.config == c
                &&& had is Some && had->0.members.dom().contains(name) ==> {
                    let k = had->0.members[name];
                    m.link_up == k.link_up && m.partner == k.partner && m.last_rx == k.last_rx
                        && m.last_tx == k.last_tx && m.bundled == k.bundled && m.churn == k.churn
                        && m.pdus_rx == k.pdus_rx && m.pdus_tx == k.pdus_tx && m.port_number
                        == k.port_number
                }
                &&& had is None || !had->0.members.dom().contains(name) ==> {
                    &&& m.link_up <==> links.dom().contains(name) && links[name]
                    &&& m.partner is None && m.last_rx is None && m.last_tx is None && !m.bundled
                        && !m.individual && m.churn == 0 && m.pdus_rx == 0 && m.pdus_tx == 0
                }
            }
            &&& had is Some ==> got.partnerless_since == had->0.partnerless_since
            &&& had is None ==> got.partnerless_since == now && !got.fallback_active
                && got.last_gates is None
        }),
{
}

/// A push is the whole of the LAGs: a group that it does not name is gone, one
/// that it names once is configured as it says, from what was there.
pub proof fn lemma_push_is_whole(
    lags: Map<u16, crate::lacp::LagModel>,
    configs: Seq<LagConfig>,
    links: Map<Seq<char>, bool>,
    now: u64,
    i: int,
    gone: u16,
)
    requires
        0 <= i < configs.len(),
        forall|j: int| 0 <= j < configs.len() && j != i ==> (#[trigger] configs[j]).group != configs[i].group,
        forall|j: int| 0 <= j < configs.len() ==> (#[trigger] configs[j]).group != gone,
    ensures
        ({
            let got = crate::lacp::lags_after(lags, configs, links, now, configs.len() as int);
            let g = configs[i].group;
            &&& !got.dom().contains(gone)
            &&& got.dom().contains(g)
            &&& lags.dom().contains(g) ==> got[g] == crate::lacp::configured(
                Some(lags[g]),
                configs[i],
                links,
                now,
            )
            &&& !lags.dom().contains(g) ==> got[g] == crate::lacp::configured(
                None,
                configs[i],
                links,
                now,
            )
        }),
{
    lemma_pushed(lags, configs, links, now, i, gone, configs.len() as int);
}

proof fn lemma_pushed(
    lags: Map<u16, crate::lacp::LagModel>,
    configs: Seq<LagConfig>,
    links: Map<Seq<char>, bool>,
    now: u64,
    i: int,
    gone: u16,
    n: int,
)
    requires
        0 <= i < configs.len(),
        0 <= n <= configs.len(),
        forall|j: int| 0 <= j < configs.len() && j != i ==> (#[trigger] configs[j]).group != configs[i].group,
        forall|j: int| 0 <= j < configs.len() ==> (#[trigger] configs[j]).group != gone,
    ensures
        ({
            let got = crate::lacp::lags_after(lags, configs, links, now, n);
            let g = configs[i].group;
            &&& !got.dom().contains(gone)
            &&& n <= i ==> (got.dom().contains(g) <==> lags.dom().contains(g)) && (
            lags.dom().contains(g) ==> got[g] == lags[g])
            &&& n > i ==> got.dom().contains(g) && got[g] == crate::lacp::configured(
                if lags.dom().contains(g) {
                    Some(lags[g])
                } else {
                    None
                },
                configs[i],
                links,
                now,
            )
        }),
    decreases n,
{
    if n > 0 {
        lemma_pushed(lags, configs, links, now, i, gone, n - 1);
        assert(configs[n - 1].group != gone);
    } else {
        if crate::lacp::has_group(configs, gone) {
            let j = choose|j: int| 0 <= j < configs.len() && (#[trigger] configs[j]).group == gone;
            assert(configs[j].group != gone);
        }
        assert(configs[i].group == configs[i].group);
        assert(crate::lacp::has_group(configs, configs[i].group));
    }
}

/// How a member stands: individual or bundled where its gate is open, standby
/// where it only has link, else down.
pub proof fn lemma_members_are_shown(r: crate::lacp::MemberSnapshot, name: String, m: Member, now: u64)
    requires
        crate::lacp::shows_member(r, (name, m), now),
    ensures
        m.individual ==> r.status@ == "individual"@,
        !m.individual && m.bundled ==> r.status@ == "bundled"@,
        !m.individual && !m.bundled && m.link_up ==> r.status@ == "standby"@,
        !m.individual && !m.bundled && !m.link_up ==> r.status@ == "down"@,
        r.port@ == name@,
        r.pdus_rx == m.pdus_rx,
        r.pdus_tx == m.pdus_tx,
        r.churn == m.churn,
        r.rate_fast == m.config.rate_fast,
        m.partner matches Some(p) ==> r.partner_state == p.state && r.partner_port == p.port
            && r.partner_key == p.key && r.partner_priority == p.port_priority,
        heard(m, now) && m.partner is Some ==> r.partner_system == Some(
            (m.partner->0.system_priority, m.partner->0.system),
        ),
        !heard(m, now) ==> r.partner_system is None,
{
}

/// How an aggregate stands: the members that are bundled, of all of them, and
/// up where any forwards.
pub proof fn lemma_lags_are_shown(r: crate::lacp::LagSnapshot, lag: Lag, now: u64)
    requires
        crate::lacp::shows_lag(r, lag, now),
        lag.members.entries@.len() <= u32::MAX,
    ensures
        r.total == lag.members.entries@.len(),
        r.bundled == count(lag.members.entries@, |m: Member| m.bundled && !m.individual),
        r.up <==> exists|i: int|
            0 <= i < lag.members.entries@.len() && (#[trigger] lag.members.entries@[i]).1.bundled,
        r.group == lag.config.group,
        r.min_links == lag.config.min_links,
        r.fallback == lag.config.fallback,
        r.fallback_timeout == lag.config.fallback_timeout,
        r.fallback_active == lag.fallback_active,
        lag.config.members.entries@.len() > 0 ==> {
            &&& r.lacp == (lag.config.members.entries@[0].1.mode != Mode::On)
            &&& r.active_mode == (lag.config.members.entries@[0].1.mode == Mode::Active)
        },
{
    let ms = lag.members.entries@;
    lemma_bundled(ms, ms.len() as int);
    assert(ms.take(ms.len() as int) =~= ms);
}

proof fn lemma_bundled(ms: Seq<(String, Member)>, n: int)
    requires
        0 <= n <= ms.len(),
    ensures
        crate::lacp::bundled_now(ms, n) == count(
            ms.take(n),
            |m: Member| m.bundled && !m.individual,
        ),
        crate::lacp::bundled_now(ms, n) <= n,
    decreases n,
{
    reveal(Seq::filter);
    if n > 0 {
        lemma_bundled(ms, n - 1);
        assert(ms.take(n).drop_last() =~= ms.take(n - 1));
        assert(ms.take(n).last() == ms[n - 1]);
    }
}

} // verus!
