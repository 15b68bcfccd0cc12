//! The 802.1X engine. hostapd is the authenticator (wired driver on
//! the hostif netdevs) and the RADIUS client; orch owns it end to end:
//! dot1x runtime auth state must drive dataplane changes, so this engine
//! renders the hostapd config, says when the process has to be restarted,
//! reads the control socket's lines, and flips port authorization via syncd's
//! `SetPortAuthorized` (the internal permit-EAPOL + deny-all ACL entries).
//!
//! Config and control-socket events go in; authorization decisions and
//! hostapd directives come out.

use vstd::prelude::*;

use crate::ordmap::{OrdMap, TextSet};
use crate::text::{cat2, cat3, chars_of, contains, decimal, find, read_lossy, same_text, text_of, words};

verus! {

#[derive(Debug)]
pub struct Config {
    /// RADIUS servers, tried in config order.
    pub radius: Vec<Radius>,
    /// Seconds; 0 = reauthentication off.
    pub reauth_interval: u32,
    /// Ports running the authenticator.
    pub ports: TextSet,
}

impl Default for Config {
    fn default() -> (r: Config)
        ensures
            r.wf(),
            r.radius@.len() == 0,
            r.reauth_interval == 0,
            r.ports@.dom() == Set::<Seq<char>>::empty(),
    {
        let r = Config { radius: Vec::new(), reauth_interval: 0, ports: OrdMap::new() };
        assert(r.ports@.dom() =~= Set::<Seq<char>>::empty());
        r
    }
}

#[derive(Debug, PartialEq, Eq)]
pub struct Radius {
    pub ip: String,
    pub key: String,
    pub port: u16,
    pub timeout: u16,
    pub retransmit: u16,
}

/// A RADIUS server as mathematical values.
pub struct RadiusModel {
    pub ip: Seq<char>,
    pub key: Seq<char>,
    pub port: u16,
    pub timeout: u16,
    pub retransmit: u16,
}

impl DeepView for Radius {
    type V = RadiusModel;

    open spec fn deep_view(&self) -> RadiusModel {
        RadiusModel {
            ip: self.ip@,
            key: self.key@,
            port: self.port,
            timeout: self.timeout,
            retransmit: self.retransmit,
        }
    }
}

impl Radius {
    fn copy(&self) -> (r: Radius)
        ensures
            r.deep_view() == self.deep_view(),
    {
        Radius {
            ip: self.ip.clone(),
            key: self.key.clone(),
            port: self.port,
            timeout: self.timeout,
            retransmit: self.retransmit,
        }
    }

    fn same(&self, other: &Radius) -> (r: bool)
        ensures
            r == (self.deep_view() == other.deep_view()),
    {
        same_text(&self.ip, &other.ip) && same_text(&self.key, &other.key) && self.port
            == other.port && self.timeout == other.timeout && self.retransmit == other.retransmit
    }
}

fn copy_servers(list: &Vec<Radius>) -> (r: Vec<Radius>)
    ensures
        r.deep_view() == list.deep_view(),
{
    let mut r: Vec<Radius> = Vec::new();
    let mut i: usize = 0;
    while i < list.len()
        invariant
            i <= list@.len(),
            r@.len() == i,
            forall|j: int|
                0 <= j < i ==> (#[trigger] r@[j]).deep_view() == list@[j].deep_view(),
        decreases list@.len() - i,
    {
        r.push(list[i].copy());
        i = i + 1;
    }
    assert(r.deep_view() =~= list.deep_view());
    r
}

fn same_servers(a: &Vec<Radius>, b: &Vec<Radius>) -> (r: bool)
    ensures
        r == (a.deep_view() == b.deep_view()),
{
    if a.len() != b.len() {
        assert(a.deep_view().len() != b.deep_view().len());
        return false;
    }
    let mut i: usize = 0;
    while i < a.len()
        invariant
            i <= a@.len(),
            a@.len() == b@.len(),
            forall|j: int| 0 <= j < i ==> (#[trigger] a@[j]).deep_view() == b@[j].deep_view(),
        decreases a@.len() - i,
    {
        if !a[i].same(&b[i]) {
            assert(a.deep_view()[i as int] != b.deep_view()[i as int]);
            return false;
        }
        i = i + 1;
    }
    assert(a.deep_view() =~= b.deep_view());
    true
}

/// Two configurations say the same.
pub open spec fn same_config(a: Config, b: Config) -> bool {
    &&& a.radius.deep_view() == b.radius.deep_view()
    &&& a.reauth_interval == b.reauth_interval
    &&& a.ports@.dom() == b.ports@.dom()
}

impl Config {
    pub open spec fn wf(&self) -> bool {
        self.ports.wf()
    }

    fn copy(&self) -> (r: Config)
        requires
            self.wf(),
        ensures
            r.wf(),
            same_config(r, *self),
    {
        Config {
            radius: copy_servers(&self.radius),
            reauth_interval: self.reauth_interval,
            ports: self.ports.copy(),
        }
    }

    fn same(&self, other: &Config) -> (r: bool)
        requires
            self.wf(),
            other.wf(),
        ensures
            r == same_config(*self, *other),
    {
        same_servers(&self.radius, &other.radius) && self.reauth_interval == other.reauth_interval
            && self.ports.same_keys(&other.ports)
    }
}

/// One hostapd control-socket event, resolved to a port.
#[derive(Debug, Clone, PartialEq, Eq)]
pub enum CtrlEvent {
    /// EAP authentication succeeded for `mac`.
    AuthSuccess { port: String, mac: String },
    /// EAP failed (bad credentials, RADIUS timeout).
    AuthFailure { port: String, mac: String },
    /// The supplicant logged off or disconnected.
    Logoff { port: String, mac: String },
}

/// What the hostapd runtime should do.
#[derive(Debug)]
pub enum Directive {
    /// Config changed: re-render every port config and restart the
    /// process.
    Reconfigure(Config),
    /// Force reauthentication on one port (`clear dot1x interface`).
    Reauth(String),
}

#[derive(Debug)]
pub struct PortState {
    pub authorized: bool,
    pub supplicant: Option<String>,
    /// When the last authentication succeeded.
    pub last_auth: Option<u64>,
    pub failures: u32,
}

#[derive(Debug)]
pub struct PortSnapshot {
    pub port: String,
    pub authorized: bool,
    pub supplicant: Option<String>,
    pub last_auth: Option<u64>,
    pub failures: u32,
}

#[derive(Debug)]
pub struct Snapshot {
    pub radius: Vec<Radius>,
    pub reauth_interval: u32,
    pub ports: Vec<PortSnapshot>,
}

// -------------------------------------------------------------- engine

pub struct Engine {
    pub config: Config,
    pub ports: OrdMap<String, PortState>,
}

/// What a new configuration sets off.
#[derive(Debug)]
pub struct Changes {
    /// Authorization flips: (port, authorized) for syncd's
    /// SetPortAuthorized.
    pub flips: Vec<(String, bool)>,
    pub directive: Option<Directive>,
}

/// Authorization flips as mathematical values.
pub open spec fn flips_view(flips: Seq<(String, bool)>) -> Seq<(Seq<char>, bool)> {
    Seq::new(flips.len(), |i: int| (flips[i].0@, flips[i].1))
}

/// The same flip for each of some ports.
pub open spec fn flips_to(ports: Seq<Seq<char>>, authorized: bool) -> Seq<(Seq<char>, bool)> {
    Seq::new(ports.len(), |i: int| (ports[i], authorized))
}

/// A port on which the authenticator has just been turned on.
pub open spec fn new_port() -> PortState {
    PortState { authorized: false, supplicant: None, last_auth: None, failures: 0 }
}

/// The ports under another set of ports: those that stay keep their state.
pub open spec fn ports_for(
    ports: Map<Seq<char>, PortState>,
    wanted: Set<Seq<char>>,
) -> Map<Seq<char>, PortState> {
    Map::new(
        |k: Seq<char>| wanted.contains(k),
        |k: Seq<char>|
            if ports.dom().contains(k) {
                ports[k]
            } else {
                new_port()
            },
    )
}

/// The ports that leave, then those that come, each in order.
pub open spec fn config_flips(
    flips: Seq<(Seq<char>, bool)>,
    had: Set<Seq<char>>,
    wanted: Set<Seq<char>>,
) -> bool {
    exists|stale: Seq<Seq<char>>, fresh: Seq<Seq<char>>|
        #![trigger flips_to(stale, true), flips_to(fresh, false)]
        {
            &&& crate::ordmap::lists(stale, crate::ordmap::picked_names(had, wanted, false))
            &&& crate::ordmap::lists(fresh, crate::ordmap::picked_names(wanted, had, false))
            &&& flips == flips_to(stale, true) + flips_to(fresh, false)
        }
}

/// The port an event is about.
pub open spec fn event_port(e: CtrlEvent) -> Seq<char> {
    match e {
        CtrlEvent::AuthSuccess { port, .. } => port@,
        CtrlEvent::AuthFailure { port, .. } => port@,
        CtrlEvent::Logoff { port, .. } => port@,
    }
}

/// A port's state after an event.
pub open spec fn event_state(s: PortState, e: CtrlEvent, now: u64) -> PortState {
    match e {
        CtrlEvent::AuthSuccess { mac, .. } => PortState {
            authorized: true,
            supplicant: Some(mac),
            last_auth: Some(now),
            failures: s.failures,
        },
        CtrlEvent::AuthFailure { mac, .. } => PortState {
            authorized: false,
            supplicant: if mac@.len() > 0 {
                Some(mac)
            } else {
                None
            },
            last_auth: s.last_auth,
            failures: (s.failures + 1) as u32,
        },
        CtrlEvent::Logoff { .. } => PortState { authorized: false, supplicant: None, ..s },
    }
}

/// The flip that an event on a port sets off: only where the authorization
/// changes.
pub open spec fn event_flip(s: PortState, e: CtrlEvent) -> Option<(Seq<char>, bool)> {
    if s.authorized != (e is AuthSuccess) {
        Some((event_port(e), e is AuthSuccess))
    } else {
        None
    }
}

/// The view of an optional flip.
pub open spec fn flip_view(flip: Option<(String, bool)>) -> Option<(Seq<char>, bool)> {
    match flip {
        Some((port, authorized)) => Some((port@, authorized)),
        None => None,
    }
}

/// What an operator sees of one port.
pub open spec fn shows_port(r: PortSnapshot, name: Seq<char>, s: PortState) -> bool {
    &&& r.port@ == name
    &&& r.authorized == s.authorized
    &&& r.supplicant == s.supplicant
    &&& r.last_auth == s.last_auth
    &&& r.failures == s.failures
}

impl Engine {
    /// The configuration and the table are in order, and the table holds
    /// exactly the configured ports.
    pub open spec fn wf(&self) -> bool {
        &&& self.config.wf()
        &&& self.ports.wf()
        &&& self.ports@.dom() == self.config.ports@.dom()
    }

    /// The failure that an event reports, if it reports one, can still be
    /// counted.
    pub open spec fn room(&self, event: CtrlEvent) -> bool {
        event is AuthFailure && self.ports@.dom().contains(event_port(event))
            ==> self.ports@[event_port(event)].failures < u32::MAX
    }

    /// Can the failure that an event reports, if it reports one, still be
    /// counted?
    pub fn has_room(&self, event: &CtrlEvent) -> (r: bool)
        requires
            self.wf(),
        ensures
            r == self.room(*event),
    {
        match event {
            CtrlEvent::AuthFailure { port, .. } => match self.ports.get(port) {
                Some(s) => s.failures < u32::MAX,
                None => true,
            },
            _ => true,
        }
    }

    pub fn spawn() -> (r: Engine)
        ensures
            r.wf(),
            r.config.radius@.len() == 0,
            r.config.reauth_interval == 0,
            r.config.ports@.dom() == Set::<Seq<char>>::empty(),
            r.ports@ == Map::<Seq<char>, PortState>::empty(),
    {
        Engine { config: Config::default(), ports: OrdMap::new() }
    }

    /// Full desired state, declaratively. New dot1x ports start
    /// unauthorized (enforcement on before the first supplicant);
    /// removed ports are re-authorized (enforcement off).
    pub fn set_config(&mut self, config: Config) -> (r: Changes)
        requires
            old(self).wf(),
            config.wf(),
        ensures
            final(self).wf(),
            same_config(old(self).config, config) ==> {
                &&& *final(self) == *old(self)
                &&& r.flips@.len() == 0
                &&& r.directive is None
            },
            !same_config(old(self).config, config) ==> {
                &&& final(self).config == config
                &&& final(self).ports@ == ports_for(old(self).ports@, config.ports@.dom())
                &&& config_flips(
                    flips_view(r.flips@),
                    old(self).ports@.dom(),
                    config.ports@.dom(),
                )
                &&& r.directive matches Some(Directive::Reconfigure(c))
                &&& c.wf()
                &&& same_config(c, config)
            },
    {
        let mut flips: Vec<(String, bool)> = Vec::new();
        if self.config.same(&config) {
            return Changes { flips, directive: None };
        }
        let ghost before = self.ports@;
        let had = self.ports.key_set();
        let stale: Vec<String> = had.picked(&config.ports, false).names();
        let fresh: Vec<String> = config.ports.picked(&had, false).names();
        let ghost leaving = stale.deep_view();
        let ghost coming = fresh.deep_view();
        let mut i: usize = 0;
        assert(flips_view(flips@) =~= flips_to(leaving.take(0), true));
        assert(leaving.take(0) =~= Seq::empty());
        while i < stale.len()
            invariant
                i <= stale@.len(),
                leaving == stale.deep_view(),
                self.ports.wf(),
                self.ports@ == before.remove_keys(crate::ordmap::name_set(leaving.take(i as int))),
                flips_view(flips@) == flips_to(leaving.take(i as int), true),
            decreases stale@.len() - i,
        {
            self.ports.remove(&stale[i]);
            let ghost had_flips = flips_view(flips@);
            flips.push((stale[i].clone(), true));
            proof {
                let name = stale@[i as int]@;
                assert(leaving.take(i + 1) =~= leaving.take(i as int).push(name));
                lemma_name_set_push(leaving.take(i as int), name);
                assert(self.ports@ =~= before.remove_keys(
                    crate::ordmap::name_set(leaving.take(i + 1)),
                ));
                assert(flips_view(flips@) =~= had_flips.push((name, true)));
                assert(flips_to(leaving.take(i + 1), true) =~= flips_to(
                    leaving.take(i as int),
                    true,
                ).push((name, true)));
            }
            i = i + 1;
        }
        assert(leaving.take(i as int) =~= leaving);
        let ghost kept = self.ports@;
        let mut k: usize = 0;
        assert(coming.take(0) =~= Seq::empty());
        assert(self.ports@ =~= with_new(kept, coming.take(0)));
        assert(flips_view(flips@) =~= flips_to(leaving, true) + flips_to(coming.take(0), false));
        while k < fresh.len()
            invariant
                k <= fresh@.len(),
                coming == fresh.deep_view(),
                self.ports.wf(),
                self.ports@ == with_new(kept, coming.take(k as int)),
                flips_view(flips@) == flips_to(leaving, true) + flips_to(
                    coming.take(k as int),
                    false,
                ),
            decreases fresh@.len() - k,
        {
            self.ports.insert(
                fresh[k].clone(),
                PortState { authorized: false, supplicant: None, last_auth: None, failures: 0 },
            );
            let ghost had_flips = flips_view(flips@);
            flips.push((fresh[k].clone(), false));
            proof {
                let name = fresh@[k as int]@;
                assert(coming.take(k + 1) =~= coming.take(k as int).push(name));
                lemma_name_set_push(coming.take(k as int), name);
                assert(self.ports@ =~= with_new(kept, coming.take(k + 1)));
                assert(flips_view(flips@) =~= had_flips.push((name, false)));
                assert(flips_to(coming.take(k + 1), false) =~= flips_to(
                    coming.take(k as int),
                    false,
                ).push((name, false)));
                assert(flips_view(flips@) =~= flips_to(leaving, true) + flips_to(
                    coming.take(k + 1),
                    false,
                ));
            }
            k = k + 1;
        }
        assert(coming.take(k as int) =~= coming);
        proof {
            assert(self.ports@ =~= ports_for(before, config.ports@.dom())) by {
                assert(crate::ordmap::name_set(leaving) == crate::ordmap::picked_names(
                    before.dom(),
                    config.ports@.dom(),
                    false,
                ));
                assert(crate::ordmap::name_set(coming) == crate::ordmap::picked_names(
                    config.ports@.dom(),
                    before.dom(),
                    false,
                ));
            }
            assert(self.ports@.dom() =~= config.ports@.dom());
            assert(config_flips(flips_view(flips@), before.dom(), config.ports@.dom()));
        }
        let directive = Some(Directive::Reconfigure(config.copy()));
        self.config = config;
        Changes { flips, directive }
    }

    /// One control-socket event; the flip it sets off comes back.
    pub fn handle_event(&mut self, event: CtrlEvent, now: u64) -> (r: Option<(String, bool)>)
        requires
            old(self).wf(),
            old(self).room(event),
        ensures
            final(self).wf(),
            final(self).config == old(self).config,
            old(self).ports@.dom().contains(event_port(event)) ==> {
                &&& final(self).ports@ == old(self).ports@.insert(
                    event_port(event),
                    event_state(old(self).ports@[event_port(event)], event, now),
                )
                &&& flip_view(r) == event_flip(old(self).ports@[event_port(event)], event)
            },
            !old(self).ports@.dom().contains(event_port(event)) ==> {
                &&& *final(self) == *old(self)
                &&& r is None
            },
    {
        let ghost e = event;
        let ghost before = self.ports@;
        match event {
            CtrlEvent::AuthSuccess { port, mac } => match self.ports.find(&port) {
                None => None,
                Some(i) => {
                    proof {
                        crate::ordmap::lemma_map_of_entry(self.ports.entries@, i as int);
                    }
                    let flip: bool = !self.ports.entries[i].1.authorized;
                    let failures: u32 = self.ports.entries[i].1.failures;
                    self.ports.insert(
                        port.clone(),
                        PortState {
                            authorized: true,
                            supplicant: Some(mac),
                            last_auth: Some(now),
                            failures,
                        },
                    );
                    assert(self.ports@.dom() =~= before.dom());
                    if flip {
                        Some((port, true))
                    } else {
                        None
                    }
                },
            },
            CtrlEvent::AuthFailure { port, mac } => match self.ports.find(&port) {
                None => None,
                Some(i) => {
                    proof {
                        crate::ordmap::lemma_map_of_entry(self.ports.entries@, i as int);
                    }
                    let flip: bool = self.ports.entries[i].1.authorized;
                    let failures: u32 = self.ports.entries[i].1.failures;
                    let last_auth: Option<u64> = self.ports.entries[i].1.last_auth;
                    let supplicant = if mac.as_str().is_empty() {
                        None
                    } else {
                        Some(mac)
                    };
                    self.ports.insert(
                        port.clone(),
                        PortState {
                            authorized: false,
                            supplicant,
                            last_auth,
                            failures: failures + 1,
                        },
                    );
                    assert(self.ports@.dom() =~= before.dom());
                    if flip {
                        Some((port, false))
                    } else {
                        None
                    }
                },
            },
            CtrlEvent::Logoff { port, .. } => match self.ports.find(&port) {
                None => None,
                Some(i) => {
                    proof {
                        crate::ordmap::lemma_map_of_entry(self.ports.entries@, i as int);
                    }
                    let flip: bool = self.ports.entries[i].1.authorized;
                    let failures: u32 = self.ports.entries[i].1.failures;
                    let last_auth: Option<u64> = self.ports.entries[i].1.last_auth;
                    self.ports.insert(
                        port.clone(),
                        PortState { authorized: false, supplicant: None, last_auth, failures },
                    );
                    assert(self.ports@.dom() =~= before.dom());
                    if flip {
                        Some((port, false))
                    } else {
                        None
                    }
                },
            },
        }
    }

    /// Force reauthentication (`clear dot1x interface <port>`); nothing
    /// when the port runs no authenticator.
    pub fn reauth(&self, port: &str) -> (r: Option<Directive>)
        requires
            self.wf(),
        ensures
            self.ports@.dom().contains(port@) ==> (r matches Some(Directive::Reauth(p)) && p@
                == port@),
            !self.ports@.dom().contains(port@) ==> r is None,
    {
        let name = port.to_owned();
        if self.ports.contains(&name) {
            Some(Directive::Reauth(name))
        } else {
            None
        }
    }

    pub fn snapshot(&self) -> (r: Snapshot)
        requires
            self.wf(),
        ensures
            r.radius.deep_view() == self.config.radius.deep_view(),
            r.reauth_interval == self.config.reauth_interval,
            r.ports@.len() == self.ports.entries@.len(),
            forall|i: int|
                #![trigger r.ports@[i]]
                0 <= i < r.ports@.len() ==> shows_port(
                    r.ports@[i],
                    self.ports.entries@[i].0@,
                    self.ports.entries@[i].1,
                ),
    {
        let mut ports: Vec<PortSnapshot> = Vec::new();
        let mut i: usize = 0;
        while i < self.ports.entries.len()
            invariant
                i <= self.ports.entries@.len(),
                ports@.len() == i,
                forall|j: int|
                    #![trigger ports@[j]]
                    0 <= j < i ==> shows_port(
                        ports@[j],
                        self.ports.entries@[j].0@,
                        self.ports.entries@[j].1,
                    ),
            decreases self.ports.entries@.len() - i,
        {
            let state = &self.ports.entries[i].1;
            ports.push(
                PortSnapshot {
                    port: self.ports.entries[i].0.clone(),
                    authorized: state.authorized,
                    supplicant: crate::text::copy_option(&state.supplicant),
                    last_auth: state.last_auth,
                    failures: state.failures,
                },
            );
            i = i + 1;
        }
        Snapshot {
            radius: copy_servers(&self.config.radius),
            reauth_interval: self.config.reauth_interval,
            ports,
        }
    }
}

/// The table with some new ports in it.
pub open spec fn with_new(
    ports: Map<Seq<char>, PortState>,
    names: Seq<Seq<char>>,
) -> Map<Seq<char>, PortState> {
    Map::new(
        |k: Seq<char>| ports.dom().contains(k) || crate::ordmap::name_set(names).contains(k),
        |k: Seq<char>|
            if crate::ordmap::name_set(names).contains(k) {
                new_port()
            } else {
                ports[k]
            },
    )
}

proof fn lemma_name_set_push(names: Seq<Seq<char>>, name: Seq<char>)
    ensures
        crate::ordmap::name_set(names.push(name)) == crate::ordmap::name_set(names).insert(name),
{
    let after = names.push(name);
    assert forall|k: Seq<char>| after.contains(k) <==> names.contains(k) || k == name by {
        if names.contains(k) {
            let j = choose|j: int| 0 <= j < names.len() && names[j] == k;
            assert(after[j] == k);
        }
        if k == name {
            assert(after[names.len() as int] == k);
        }
        if after.contains(k) && k != name {
            let j = choose|j: int| 0 <= j < after.len() && after[j] == k;
            assert(names[j] == k);
        }
    }
    assert(crate::ordmap::name_set(after) =~= crate::ordmap::name_set(names).insert(name));
}

// ------------------------------------------------------------- rendering

/// `key=value`, with the line's end.
pub open spec fn setting(key: Seq<char>, value: Seq<char>) -> Seq<char> {
    key + value + "\n"@
}

/// The settings of the first `n` RADIUS servers.
pub open spec fn server_lines(servers: Seq<RadiusModel>, n: int) -> Seq<char>
    decreases n,
{
    if n <= 0 {
        Seq::empty()
    } else {
        server_lines(servers, n - 1) + setting("auth_server_addr="@, servers[n - 1].ip) + setting(
            "auth_server_port="@,
            crate::text::decimal_text(servers[n - 1].port as nat),
        ) + setting("auth_server_shared_secret="@, servers[n - 1].key)
    }
}

/// How long until the first server is tried again: all its tries.
pub open spec fn retry_interval(first: RadiusModel) -> nat {
    (first.timeout * (first.retransmit + 1)) as nat
}

/// One port's hostapd config.
pub open spec fn hostapd_text(
    port: Seq<char>,
    servers: Seq<RadiusModel>,
    reauth_interval: u32,
    ctrl_dir: Seq<char>,
) -> Seq<char> {
    setting("interface="@, port) + "driver=wired\nieee8021x=1\nuse_pae_group_addr=1\n"@ + setting(
        "ctrl_interface="@,
        ctrl_dir,
    ) + (if reauth_interval > 0 {
        setting("eap_reauth_period="@, crate::text::decimal_text(reauth_interval as nat))
    } else {
        Seq::empty()
    }) + "own_ip_addr=127.0.0.1\n"@ + server_lines(servers, servers.len() as int) + (if servers.len()
        > 0 {
        setting(
            "radius_retry_primary_interval="@,
            crate::text::decimal_text(retry_interval(servers[0])),
        )
    } else {
        Seq::empty()
    })
}

fn push_setting(out: &mut String, key: &str, value: &str)
    ensures
        final(out)@ == old(out)@ + setting(key@, value@),
{
    let ghost before = out@;
    let line = cat3(key, value, "\n");
    out.append(&line);
    assert(out@ =~= before + setting(key@, value@));
}

/// Render one port's hostapd config (wired driver on the port's hostif
/// netdev). One instance serves every port, one config file each;
/// RADIUS secrets ride in the file, so the runtime writes it mode
/// 0600.
pub fn render_hostapd_conf(port: &str, config: &Config, ctrl_dir: &str) -> (r: String)
    ensures
        r@ == hostapd_text(port@, config.radius.deep_view(), config.reauth_interval, ctrl_dir@),
{
    let ghost servers = config.radius.deep_view();
    let mut out = String::new();
    push_setting(&mut out, "interface=", port);
    out.append("driver=wired\nieee8021x=1\nuse_pae_group_addr=1\n");
    push_setting(&mut out, "ctrl_interface=", ctrl_dir);
    if config.reauth_interval > 0 {
        push_setting(&mut out, "eap_reauth_period=", &decimal(config.reauth_interval as u64));
    }
    // The switch's own RADIUS identity.
    out.append("own_ip_addr=127.0.0.1\n");
    let ghost head = setting("interface="@, port@)
        + "driver=wired\nieee8021x=1\nuse_pae_group_addr=1\n"@ + setting(
        "ctrl_interface="@,
        ctrl_dir@,
    ) + (if config.reauth_interval > 0 {
        setting("eap_reauth_period="@, crate::text::decimal_text(config.reauth_interval as nat))
    } else {
        Seq::empty()
    }) + "own_ip_addr=127.0.0.1\n"@;
    assert(out@ =~= head);
    let mut i: usize = 0;
    assert(head + server_lines(servers, 0) =~= head);
    while i < config.radius.len()
        invariant
            i <= config.radius@.len(),
            servers == config.radius.deep_view(),
            out@ == head + server_lines(servers, i as int),
        decreases config.radius@.len() - i,
    {
        let server = &config.radius[i];
        assert(servers[i as int] == server.deep_view());
        push_setting(&mut out, "auth_server_addr=", &server.ip);
        push_setting(&mut out, "auth_server_port=", &decimal(server.port as u64));
        push_setting(&mut out, "auth_server_shared_secret=", &server.key);
        i = i + 1;
        assert(out@ =~= head + server_lines(servers, i as int));
    }
    if config.radius.len() > 0 {
        let first = &config.radius[0];
        assert(servers[0] == first.deep_view());
        assert(first.timeout * (first.retransmit + 1) <= 0xffff * 0x1_0000) by (nonlinear_arith)
            requires
                0 <= first.timeout <= 0xffff,
                0 <= first.retransmit <= 0xffff,
        ;
        let interval: u32 = first.timeout as u32 * (first.retransmit as u32 + 1);
        push_setting(&mut out, "radius_retry_primary_interval=", &decimal(interval as u64));
    }
    assert(out@ =~= hostapd_text(port@, servers, config.reauth_interval, ctrl_dir@));
    out
}

/// One port's config file.
#[derive(Debug)]
pub struct PortConf {
    pub port: String,
    /// The file's name in the run directory.
    pub file: String,
    pub text: String,
}

/// The config files of the first `n` ports.
pub open spec fn is_conf(
    r: PortConf,
    port: Seq<char>,
    config: Config,
    ctrl_dir: Seq<char>,
) -> bool {
    &&& r.port@ == port
    &&& r.file@ == port + ".conf"@
    &&& r.text@ == hostapd_text(port, config.radius.deep_view(), config.reauth_interval, ctrl_dir)
}

/// What a reconfigured hostapd is started with, one config file for each
/// port in order. Without a port or without a RADIUS server there is nothing
/// to start.
pub fn hostapd_files(config: &Config, ctrl_dir: &str) -> (r: Option<Vec<PortConf>>)
    ensures
        r is None <==> config.ports.entries@.len() == 0 || config.radius@.len() == 0,
        r matches Some(files) ==> {
            &&& files@.len() == config.ports.entries@.len()
            &&& forall|i: int|
                #![trigger files@[i]]
                0 <= i < files@.len() ==> is_conf(
                    files@[i],
                    config.ports.entries@[i].0@,
                    *config,
                    ctrl_dir@,
                )
        },
{
    if config.ports.entries.len() == 0 || config.radius.len() == 0 {
        return None;
    }
    let mut files: Vec<PortConf> = Vec::new();
    let mut i: usize = 0;
    while i < config.ports.entries.len()
        invariant
            i <= config.ports.entries@.len(),
            files@.len() == i,
            forall|j: int|
                #![trigger files@[j]]
                0 <= j < i ==> is_conf(
                    files@[j],
                    config.ports.entries@[j].0@,
                    *config,
                    ctrl_dir@,
                ),
        decreases config.ports.entries@.len() - i,
    {
        let port = &config.ports.entries[i].0;
        files.push(
            PortConf {
                port: port.clone(),
                file: cat2(port, ".conf"),
                text: render_hostapd_conf(port, config, ctrl_dir),
            },
        );
        i = i + 1;
    }
    Some(files)
}

// --------------------------------------------------------- control socket

/// A line without the priority in front of it.
pub open spec fn bare_line(line: Seq<char>) -> Seq<char>
    decreases line.len(),
{
    if line.len() > 0 && (line[0] == '<' || line[0] == '>' || '0' <= line[0] <= '9') {
        bare_line(line.skip(1))
    } else {
        line
    }
}

/// The piece of a line behind a marker, up to where the marker comes again.
pub open spec fn after_marker(line: Seq<char>, marker: Seq<char>) -> Option<Seq<char>> {
    match crate::text::find_from(line, marker, 0) {
        Some(i) => {
            let from = i + marker.len();
            match crate::text::find_from(line, marker, from) {
                Some(j) => Some(line.subrange(from, j)),
                None => Some(line.skip(from)),
            }
        },
        None => None,
    }
}

/// The first word behind a marker.
pub open spec fn word_after(line: Seq<char>, marker: Seq<char>) -> Option<Seq<char>> {
    match after_marker(line, marker) {
        Some(piece) => if crate::text::words_of(piece).len() > 0 {
            Some(crate::text::words_of(piece)[0])
        } else {
            None
        },
        None => None,
    }
}

pub open spec fn or_empty(word: Option<Seq<char>>) -> Seq<char> {
    match word {
        Some(w) => w,
        None => Seq::empty(),
    }
}

/// The station of a line that tells of a success.
pub open spec fn success_mac(line: Seq<char>) -> Seq<char> {
    match word_after(line, "AP-STA-CONNECTED "@) {
        Some(w) => w,
        None => or_empty(word_after(line, "CTRL-EVENT-EAP-SUCCESS "@)),
    }
}

/// What a control-interface line tells.
#[verifier::ext_equal]
pub enum EventModel {
    AuthSuccess { port: Seq<char>, mac: Seq<char> },
    AuthFailure { port: Seq<char>, mac: Seq<char> },
    Logoff { port: Seq<char>, mac: Seq<char> },
}

impl DeepView for CtrlEvent {
    type V = EventModel;

    open spec fn deep_view(&self) -> EventModel {
        match *self {
            CtrlEvent::AuthSuccess { port, mac } => EventModel::AuthSuccess {
                port: port@,
                mac: mac@,
            },
            CtrlEvent::AuthFailure { port, mac } => EventModel::AuthFailure {
                port: port@,
                mac: mac@,
            },
            CtrlEvent::Logoff { port, mac } => EventModel::Logoff { port: port@, mac: mac@ },
        }
    }
}

pub open spec fn ctrl_event(port: Seq<char>, line: Seq<char>) -> Option<EventModel> {
    let line = bare_line(line);
    if crate::text::holds_text(line, "CTRL-EVENT-EAP-SUCCESS"@) || crate::text::holds_text(
        line,
        "AP-STA-CONNECTED"@,
    ) {
        Some(EventModel::AuthSuccess { port, mac: success_mac(line) })
    } else if crate::text::holds_text(line, "CTRL-EVENT-EAP-FAILURE"@) {
        Some(
            EventModel::AuthFailure {
                port,
                mac: or_empty(word_after(line, "CTRL-EVENT-EAP-FAILURE "@)),
            },
        )
    } else if crate::text::holds_text(line, "AP-STA-DISCONNECTED"@) {
        Some(
            EventModel::Logoff { port, mac: or_empty(word_after(line, "AP-STA-DISCONNECTED "@)) },
        )
    } else {
        None
    }
}

fn first_word(piece: &str) -> (r: Option<String>)
    ensures
        crate::text::option_text(r) == (if crate::text::words_of(piece@).len() > 0 {
            Some(crate::text::words_of(piece@)[0])
        } else {
            None
        }),
{
    let list = words(piece);
    assert(list.deep_view().len() == list@.len());
    if list.len() > 0 {
        assert(list.deep_view()[0] == list@[0]@);
        Some(list[0].clone())
    } else {
        None
    }
}

fn mac_after(line: &str, marker: &str) -> (r: Option<String>)
    ensures
        crate::text::option_text(r) == word_after(line@, marker@),
{
    let chars = chars_of(line);
    let part = chars_of(marker);
    let len: usize = chars.len();
    match find(chars.as_slice(), part.as_slice(), 0) {
        Some(i) => {
            let from: usize = i + part.len();
            let end: usize = match find(chars.as_slice(), part.as_slice(), from) {
                Some(j) => j,
                None => len,
            };
            let piece = text_of(chars.as_slice(), from, end);
            assert(line@.subrange(from as int, len as int) =~= line@.skip(from as int));
            first_word(&piece)
        },
        None => None,
    }
}

fn without_priority(line: &str) -> (r: String)
    ensures
        r@ == bare_line(line@),
{
    let chars = chars_of(line);
    let len: usize = chars.len();
    let mut start: usize = 0;
    assert(chars@.skip(0) =~= chars@);
    while start < len && (chars[start] == '<' || chars[start] == '>' || ('0' <= chars[start]
        && chars[start] <= '9'))
        invariant
            start <= len,
            len == chars@.len(),
            bare_line(chars@) == bare_line(chars@.skip(start as int)),
        decreases len - start,
    {
        assert(chars@.skip(start as int).skip(1) =~= chars@.skip(start + 1));
        start = start + 1;
    }
    let r = text_of(chars.as_slice(), start, len);
    assert(r@ =~= chars@.skip(start as int));
    r
}

fn word_or_empty(word: Option<String>) -> (r: String)
    ensures
        r@ == or_empty(crate::text::option_text(word)),
{
    match word {
        Some(w) => w,
        None => {
            let r = String::new();
            assert(r@ =~= Seq::empty());
            r
        },
    }
}

/// The view of an optional event.
pub open spec fn event_view(e: Option<CtrlEvent>) -> Option<EventModel> {
    match e {
        Some(e) => Some(e.deep_view()),
        None => None,
    }
}

/// One hostapd control-interface line, as an event of a port. The wired
/// driver reports stations by MAC.
pub fn parse_ctrl_event(port: &str, line: &str) -> (r: Option<CtrlEvent>)
    ensures
        event_view(r) == ctrl_event(port@, line@),
{
    let line = without_priority(line);
    if contains(&line, "CTRL-EVENT-EAP-SUCCESS") || contains(&line, "AP-STA-CONNECTED") {
        let mac = match mac_after(&line, "AP-STA-CONNECTED ") {
            Some(mac) => mac,
            None => word_or_empty(mac_after(&line, "CTRL-EVENT-EAP-SUCCESS ")),
        };
        return Some(CtrlEvent::AuthSuccess { port: port.to_owned(), mac });
    }
    if contains(&line, "CTRL-EVENT-EAP-FAILURE") {
        return Some(
            CtrlEvent::AuthFailure {
                port: port.to_owned(),
                mac: word_or_empty(mac_after(&line, "CTRL-EVENT-EAP-FAILURE ")),
            },
        );
    }
    if contains(&line, "AP-STA-DISCONNECTED") {
        return Some(
            CtrlEvent::Logoff {
                port: port.to_owned(),
                mac: word_or_empty(mac_after(&line, "AP-STA-DISCONNECTED ")),
            },
        );
    }
    None
}

/// One datagram of hostapd's control socket, as an event of a port.
pub fn read_ctrl_event(port: &str, datagram: &[u8]) -> (r: Option<CtrlEvent>)
    ensures
        event_view(r) == ctrl_event(port@, crate::text::lossy(datagram@)),
{
    parse_ctrl_event(port, &read_lossy(datagram))
}

// ------------------------------------------------------------------ laws

/// A port is authorized exactly when the last that was heard of it is a
/// success, and the dataplane is told exactly of the changes.
pub proof fn lemma_flips_follow_authorization(s: PortState, e: CtrlEvent, now: u64)
    ensures
        event_state(s, e, now).authorized <==> e is AuthSuccess,
        event_flip(s, e) is Some <==> event_state(s, e, now).authorized != s.authorized,
        event_flip(s, e) matches Some(f) ==> f.0 == event_port(e) && f.1 == event_state(
            s,
            e,
            now,
        ).authorized,
{
}

/// Failures are counted, and nothing else is counted as one: a logoff and a
/// success leave the counter alone.
pub proof fn lemma_only_failures_count(s: PortState, e: CtrlEvent, now: u64)
    requires
        s.failures < u32::MAX,
    ensures
        event_state(s, e, now).failures == s.failures + (if e is AuthFailure {
            1int
        } else {
            0
        }),
{
}

/// A port on which the authenticator is turned on starts unauthorized; one
/// that keeps it keeps its state; one that loses it is forgotten.
pub proof fn lemma_new_ports_start_unauthorized(
    ports: Map<Seq<char>, PortState>,
    wanted: Set<Seq<char>>,
    port: Seq<char>,
)
    ensures
        wanted.contains(port) && !ports.dom().contains(port) ==> !ports_for(
            ports,
            wanted,
        )[port].authorized,
        wanted.contains(port) && ports.dom().contains(port) ==> ports_for(ports, wanted)[port]
            == ports[port],
        ports_for(ports, wanted).dom() == wanted,
{
    assert(ports_for(ports, wanted).dom() =~= wanted);
}

} // verus!
