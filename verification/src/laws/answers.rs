//! Laws of what is shown of the engines.

use vstd::prelude::*;

use crate::answers::{
    Dot1xPortState, LagLacpState, MemberLacpState, SnoopBindingState, StpPortInfo,
};
use crate::snoopsec::Validate;

verus! {

/// A member of a port channel is shown as its engine shows it, its partner by
/// priority and address.
pub proof fn lemma_members_are_shown(r: MemberLacpState, m: crate::lacp::MemberSnapshot)
    requires
        crate::answers::shows_member(r, m),
    ensures
        r.port@ == m.port@,
        r.status@ == m.status@,
        r.rate_fast == m.rate_fast,
        r.actor_state == m.actor_state,
        r.partner_state == m.partner_state,
        m.partner_system is None ==> r.partner_system@.len() == 0,
        m.partner_system matches Some(s) ==> r.partner_system@ == crate::text::decimal_text(
            s.0 as nat,
        ) + ","@ + crate::mac::mac_chars(s.1@),
        r.partner_port == m.partner_port,
        r.partner_key == m.partner_key,
        r.partner_priority == m.partner_priority,
        r.pdus_rx == m.pdus_rx,
        r.pdus_tx == m.pdus_tx,
        r.churn == m.churn,
{
}

/// A port channel is shown as its engine shows it, with all its members.
pub proof fn lemma_port_channels_are_shown(
    r: LagLacpState,
    l: crate::lacp::LagSnapshot,
    i: int,
)
    requires
        crate::answers::shows_lag(r, l),
    ensures
        r.group == l.group,
        r.lacp == l.lacp,
        r.active_mode == l.active_mode,
        r.bundled == l.bundled,
        r.total == l.total,
        r.up == l.up,
        r.min_links == l.min_links,
        l.fallback is None ==> r.fallback_mode@ == ""@,
        l.fallback == Some(crate::lacp::Fallback::Static) ==> r.fallback_mode@ == "static"@,
        l.fallback == Some(crate::lacp::Fallback::Individual) ==> r.fallback_mode@
            == "individual"@,
        l.fallback_timeout / 1000 <= u32::MAX ==> r.fallback_timeout_secs == l.fallback_timeout
            / 1000,
        r.fallback_active == l.fallback_active,
        r.members@.len() == l.members@.len(),
        0 <= i < r.members@.len() ==> crate::answers::shows_member(r.members@[i], l.members@[i]),
{
}

/// A spanning tree port is shown as its engine shows it, its role and state in
/// words.
pub proof fn lemma_tree_ports_are_shown(r: StpPortInfo, p: crate::stp::PortSnapshot)
    requires
        crate::answers::shows_stp_port(r, p),
    ensures
        r.port@ == p.port@,
        p.role is Designated ==> r.role@ == "designated"@,
        p.role is Root ==> r.role@ == "root"@,
        p.role is Alternate ==> r.role@ == "alternate"@,
        p.role is Disabled ==> r.role@ == "disabled"@,
        p.state is Discarding ==> r.state@ == "discarding"@,
        p.state is Learning ==> r.state@ == "learning"@,
        p.state is Forwarding ==> r.state@ == "forwarding"@,
        r.cost == p.cost,
        r.priority == p.priority,
        r.portfast == p.portfast,
        r.bpduguard == p.bpduguard,
        r.bpdus_rx == p.bpdus_rx,
        r.bpdus_tx == p.bpdus_tx,
        r.errdisabled == p.errdisabled,
{
}

/// The modes and the checks in words.
pub proof fn lemma_words(mode: crate::stp::Mode, check: Validate)
    ensures
        mode is Mstp ==> crate::answers::mode_word(mode) == "mstp"@,
        mode is Rstp ==> crate::answers::mode_word(mode) == "rstp"@,
        mode is Off ==> crate::answers::mode_word(mode) == "none"@,
        check is SrcMac ==> crate::answers::check_word(check) == "src-mac"@,
        check is DstMac ==> crate::answers::check_word(check) == "dst-mac"@,
        check is Ip ==> crate::answers::check_word(check) == "ip"@,
{
}

/// A binding is shown as its engine shows it; one that does not end is a fixed
/// one.
pub proof fn lemma_bindings_are_shown(
    r: SnoopBindingState,
    b: crate::snoopsec::BindingSnapshot,
)
    requires
        crate::answers::shows_binding(r, b),
    ensures
        r.mac@ == b.mac@,
        r.address@ == crate::ip::v4_text(b.ip),
        r.lease_secs == b.lease_secs,
        r.is_static <==> b.lease_secs is None,
        r.vlan == b.vlan,
        r.interface@ == b.interface@,
{
}

/// A guarded port is shown with its state, who was seen on it, and how many
/// seconds ago it last passed.
pub proof fn lemma_guarded_ports_are_shown(
    r: Dot1xPortState,
    p: crate::dot1x::PortSnapshot,
    now: u64,
)
    requires
        crate::answers::shows_dot1x_port(r, p, now),
    ensures
        r.port@ == p.port@,
        p.authorized ==> r.status@ == "authorized"@,
        !p.authorized ==> r.status@ == "unauthorized"@,
        p.supplicant is None ==> r.supplicant_mac@.len() == 0,
        p.supplicant matches Some(t) ==> r.supplicant_mac@ == t@,
        p.last_auth is None ==> r.last_auth_secs_ago is None,
        p.last_auth matches Some(t) ==> (r.last_auth_secs_ago matches Some(s) && s == (if now > t {
            (now - t) / 1000
        } else {
            0
        })),
        r.failures == p.failures,
{
}

/// The ports that are shown are those of the name that was asked for, all of
/// them where none was, in order.
pub proof fn lemma_shown_ports(
    ports: Seq<crate::dot1x::PortSnapshot>,
    rows: Seq<crate::lldp::PortSnapshot>,
    filter: Seq<char>,
    i: int,
)
    ensures
        0 < i <= ports.len() ==> crate::answers::dot1x_rows(ports, filter, i) == (if filter.len()
            == 0 || ports[i - 1].port@ == filter {
            crate::answers::dot1x_rows(ports, filter, i - 1).push(i - 1)
        } else {
            crate::answers::dot1x_rows(ports, filter, i - 1)
        }),
        crate::answers::dot1x_rows(ports, filter, 0).len() == 0,
        0 < i <= rows.len() ==> crate::answers::lldp_rows(rows, filter, i) == (if filter.len() == 0
            || rows[i - 1].port@ == filter {
            crate::answers::lldp_rows(rows, filter, i - 1).push(i - 1)
        } else {
            crate::answers::lldp_rows(rows, filter, i - 1)
        }),
        crate::answers::lldp_rows(rows, filter, 0).len() == 0,
{
}

} // verus!
