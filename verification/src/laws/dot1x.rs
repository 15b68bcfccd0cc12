//! Laws of port authentication.

use vstd::prelude::*;

use crate::dot1x::{CtrlEvent, EventModel, PortState, RadiusModel};

verus! {

/// What an event makes of its port: a success remembers who and when; a
/// failure is counted and remembers who, where that is known; a logoff forgets
/// who, and keeps when.
pub proof fn lemma_events_tell(s: PortState, e: CtrlEvent, now: u64)
    requires
        s.failures < u32::MAX,
    ensures
        ({
            let r = crate::dot1x::event_state(s, e, now);
            &&& e matches CtrlEvent::AuthSuccess { port, mac } ==> {
                &&& r.authorized
                &&& r.supplicant == Some(mac)
                &&& r.last_auth == Some(now)
                &&& r.failures == s.failures
                &&& crate::dot1x::event_port(e) == port@
                &&& crate::dot1x::event_flip(s, e) == (if s.authorized {
                    None
                } else {
                    Some((port@, true))
                })
            }
            &&& e matches CtrlEvent::AuthFailure { port, mac } ==> {
                &&& !r.authorized
                &&& mac@.len() > 0 ==> r.supplicant == Some(mac)
                &&& mac@.len() == 0 ==> r.supplicant is None
                &&& r.last_auth == s.last_auth
                &&& r.failures == s.failures + 1
                &&& crate::dot1x::event_port(e) == port@
                &&& crate::dot1x::event_flip(s, e) == (if s.authorized {
                    Some((port@, false))
                } else {
                    None
                })
            }
            &&& e matches CtrlEvent::Logoff { port, mac } ==> {
                &&& !r.authorized
                &&& r.supplicant is None
                &&& r.last_auth == s.last_auth
                &&& r.failures == s.failures
                &&& crate::dot1x::event_port(e) == port@
                &&& crate::dot1x::event_flip(s, e) == (if s.authorized {
                    Some((port@, false))
                } else {
                    None
                })
            }
        }),
{
}

/// The guarded ports are those of the last configuration. A port that stays
/// keeps what it knows; a new one is closed, with nobody seen.
pub proof fn lemma_guarded_ports(
    ports: Map<Seq<char>, PortState>,
    wanted: Set<Seq<char>>,
    port: Seq<char>,
)
    ensures
        ({
            let r = crate::dot1x::ports_for(ports, wanted);
            &&& r.dom().contains(port) <==> wanted.contains(port)
            &&& wanted.contains(port) && ports.dom().contains(port) ==> r[port] == ports[port]
            &&& wanted.contains(port) && !ports.dom().contains(port) ==> {
                &&& !r[port].authorized
                &&& r[port].supplicant is None
                &&& r[port].last_auth is None
                &&& r[port].failures == 0
            }
        }),
{
}

/// A new configuration opens exactly the ports that it no longer guards, then
/// closes exactly those that it guards anew, each group by rising name.
pub proof fn lemma_configurations_flip(
    flips: Seq<(Seq<char>, bool)>,
    had: Set<Seq<char>>,
    wanted: Set<Seq<char>>,
    port: Seq<char>,
)
    requires
        crate::dot1x::config_flips(flips, had, wanted),
    ensures
        flips.contains((port, true)) <==> had.contains(port) && !wanted.contains(port),
        flips.contains((port, false)) <==> wanted.contains(port) && !had.contains(port),
        forall|i: int, j: int|
            0 <= i < j < flips.len() ==> {
                &&& !(#[trigger] flips[i]).1 ==> !(#[trigger] flips[j]).1
                &&& flips[i].1 == flips[j].1 ==> crate::text::text_before(flips[i].0, flips[j].0)
            },
{
    let (stale, fresh) = choose|stale: Seq<Seq<char>>, fresh: Seq<Seq<char>>|
        #![trigger crate::dot1x::flips_to(stale, true), crate::dot1x::flips_to(fresh, false)]
        {
            &&& crate::ordmap::lists(stale, crate::ordmap::picked_names(had, wanted, false))
            &&& crate::ordmap::lists(fresh, crate::ordmap::picked_names(wanted, had, false))
            &&& flips == crate::dot1x::flips_to(stale, true) + crate::dot1x::flips_to(fresh, false)
        };
    let a = crate::dot1x::flips_to(stale, true);
    let b = crate::dot1x::flips_to(fresh, false);
    assert(crate::ordmap::name_set(stale).contains(port) == (had.contains(port)
        && !wanted.contains(port)));
    assert(crate::ordmap::name_set(fresh).contains(port) == (wanted.contains(port)
        && !had.contains(port)));
    if stale.contains(port) {
        let i = choose|i: int| 0 <= i < stale.len() && stale[i] == port;
        assert(flips[i] == (port, true));
    }
    if fresh.contains(port) {
        let i = choose|i: int| 0 <= i < fresh.len() && fresh[i] == port;
        assert(flips[stale.len() + i] == (port, false));
    }
    if flips.contains((port, true)) {
        let i = choose|i: int| 0 <= i < flips.len() && flips[i] == (port, true);
        assert(i < stale.len());
        assert(stale[i] == port);
    }
    if flips.contains((port, false)) {
        let i = choose|i: int| 0 <= i < flips.len() && flips[i] == (port, false);
        assert(i >= stale.len());
        assert(fresh[i - stale.len()] == port);
    }
    assert forall|i: int, j: int| 0 <= i < j < flips.len() implies {
        &&& !(#[trigger] flips[i]).1 ==> !(#[trigger] flips[j]).1
        &&& flips[i].1 == flips[j].1 ==> crate::text::text_before(flips[i].0, flips[j].0)
    } by {
        if j < stale.len() {
            assert(crate::text::text_before(stale[i], stale[j]));
        } else if i >= stale.len() {
            assert(crate::text::text_before(fresh[i - stale.len()], fresh[j - stale.len()]));
        }
    }
}

/// The authenticator's file of a port names the port, the control directory,
/// the period where one is set, then the servers; and how long to wait for the
/// first of them: its timeout, once and once more for each retransmission.
pub proof fn lemma_files_say(
    port: Seq<char>,
    servers: Seq<RadiusModel>,
    reauth_interval: u32,
    ctrl_dir: Seq<char>,
)
    ensures
        ({
            let head = "interface="@ + port + "\n"@
                + "driver=wired\nieee8021x=1\nuse_pae_group_addr=1\n"@ + ("ctrl_interface="@
                + ctrl_dir + "\n"@);
            let period = if reauth_interval == 0 {
                Seq::<char>::empty()
            } else {
                "eap_reauth_period="@ + crate::text::decimal_text(reauth_interval as nat) + "\n"@
            };
            let last = if servers.len() == 0 {
                Seq::<char>::empty()
            } else {
                "radius_retry_primary_interval="@ + crate::text::decimal_text(
                    (servers[0].timeout * (servers[0].retransmit + 1)) as nat,
                ) + "\n"@
            };
            crate::dot1x::hostapd_text(port, servers, reauth_interval, ctrl_dir) == head + period
                + "own_ip_addr=127.0.0.1\n"@ + crate::dot1x::server_lines(
                servers,
                servers.len() as int,
            ) + last
        }),
{
}

/// Each server adds its address, its port and its secret, in the order that
/// they were configured.
pub proof fn lemma_files_name_servers(servers: Seq<RadiusModel>, n: int)
    requires
        0 < n <= servers.len(),
    ensures
        crate::dot1x::server_lines(servers, 0).len() == 0,
        crate::dot1x::server_lines(servers, n) == crate::dot1x::server_lines(servers, n - 1) + (
        "auth_server_addr="@ + servers[n - 1].ip + "\n"@) + ("auth_server_port="@
            + crate::text::decimal_text(servers[n - 1].port as nat) + "\n"@) + (
        "auth_server_shared_secret="@ + servers[n - 1].key + "\n"@),
{
}

/// A control line may stand behind its priority: what is read of it starts
/// with the first character that is no digit and no angle bracket.
pub proof fn lemma_priorities_are_skipped(line: Seq<char>)
    ensures
        ({
            let b = crate::dot1x::bare_line(line);
            let n = line.len() - b.len();
            &&& 0 <= n
            &&& b == line.skip(n)
            &&& b.len() > 0 ==> b[0] != '<' && b[0] != '>' && !('0' <= b[0] <= '9')
            &&& forall|i: int|
                0 <= i < n ==> #[trigger] line[i] == '<' || line[i] == '>' || '0' <= line[i]
                    <= '9'
        }),
    decreases line.len(),
{
    let b = crate::dot1x::bare_line(line);
    if line.len() > 0 && (line[0] == '<' || line[0] == '>' || '0' <= line[0] <= '9') {
        lemma_priorities_are_skipped(line.skip(1));
        let n = line.len() - b.len();
        assert(b =~= line.skip(n));
        assert forall|i: int| 0 <= i < n implies #[trigger] line[i] == '<' || line[i] == '>' || '0'
            <= line[i] <= '9' by {
            if i > 0 {
                assert(line.skip(1)[i - 1] == line[i]);
            }
        }
    } else {
        assert(b =~= line.skip(0));
    }
}

/// Does a word stand in a line?
pub open spec fn mentions(line: Seq<char>, word: Seq<char>) -> bool {
    exists|i: int| #[trigger] crate::laws::text::stands(line, word, i)
}

/// A line that mentions a success or a connected station is a success, else
/// one that mentions a failure is a failure, else one that mentions a
/// disconnected station a logoff; any other line is nothing.
pub proof fn lemma_lines_are_events(port: Seq<char>, line: Seq<char>)
    ensures
        ({
            let b = crate::dot1x::bare_line(line);
            let r = crate::dot1x::ctrl_event(port, line);
            let yes = mentions(b, "CTRL-EVENT-EAP-SUCCESS"@) || mentions(b, "AP-STA-CONNECTED"@);
            let no = mentions(b, "CTRL-EVENT-EAP-FAILURE"@);
            let bye = mentions(b, "AP-STA-DISCONNECTED"@);
            &&& yes <==> r is Some && r->0 is AuthSuccess
            &&& (!yes && no) <==> r is Some && r->0 is AuthFailure
            &&& (!yes && !no && bye) <==> r is Some && r->0 is Logoff
            &&& (!yes && !no && !bye) <==> r is None
            &&& r matches Some(EventModel::AuthSuccess { port: p, .. }) ==> p == port
            &&& r matches Some(EventModel::AuthFailure { port: p, .. }) ==> p == port
            &&& r matches Some(EventModel::Logoff { port: p, .. }) ==> p == port
        }),
{
    let b = crate::dot1x::bare_line(line);
    crate::laws::text::lemma_held_parts_stand(b, "CTRL-EVENT-EAP-SUCCESS"@);
    crate::laws::text::lemma_held_parts_stand(b, "AP-STA-CONNECTED"@);
    crate::laws::text::lemma_held_parts_stand(b, "CTRL-EVENT-EAP-FAILURE"@);
    crate::laws::text::lemma_held_parts_stand(b, "AP-STA-DISCONNECTED"@);
}

/// The station of an event: the first word behind the first mark in the line,
/// before the mark stands again.
pub proof fn lemma_stations_follow_marks(line: Seq<char>, marker: Seq<char>, i: int)
    requires
        crate::laws::text::stands(line, marker, i),
        forall|j: int| 0 <= j < i ==> !#[trigger] crate::laws::text::stands(line, marker, j),
        forall|j: int|
            i + marker.len() <= j ==> !#[trigger] crate::laws::text::stands(line, marker, j),
    ensures
        ({
            let words = crate::text::words_of(line.skip(i + marker.len()));
            &&& words.len() == 0 ==> crate::dot1x::word_after(line, marker) is None
            &&& words.len() > 0 ==> crate::dot1x::word_after(line, marker) == Some(words[0])
        }),
{
    crate::laws::text::lemma_parts_are_found(line, marker, 0);
    crate::laws::text::lemma_parts_are_found(line, marker, i + marker.len());
}

/// Where the mark of an event does not stand in the line, no station is known
/// by it. A success names the connected station before the authenticated one.
pub proof fn lemma_stations(port: Seq<char>, line: Seq<char>)
    ensures
        ({
            let b = crate::dot1x::bare_line(line);
            let r = crate::dot1x::ctrl_event(port, line);
            let connected = crate::dot1x::word_after(b, "AP-STA-CONNECTED "@);
            let passed = crate::dot1x::word_after(b, "CTRL-EVENT-EAP-SUCCESS "@);
            let failed = crate::dot1x::word_after(b, "CTRL-EVENT-EAP-FAILURE "@);
            let gone = crate::dot1x::word_after(b, "AP-STA-DISCONNECTED "@);
            &&& r matches Some(EventModel::AuthSuccess { mac, .. }) ==> mac == (match connected {
                Some(w) => w,
                None => match passed {
                    Some(w) => w,
                    None => Seq::empty(),
                },
            })
            &&& r matches Some(EventModel::AuthFailure { mac, .. }) ==> mac == (match failed {
                Some(w) => w,
                None => Seq::empty(),
            })
            &&& r matches Some(EventModel::Logoff { mac, .. }) ==> mac == (match gone {
                Some(w) => w,
                None => Seq::empty(),
            })
        }),
{
}

} // verus!
