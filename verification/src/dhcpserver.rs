//! The DHCP server's live state: dnsmasq's lease file, merged with the
//! pools mgmtd rendered it from.
//!
//! mgmtd renders `/etc/dnsmasq.d/hemlock.conf` and owns the unit; orch reads
//! the lease file and answers `show dhcp server`: one place that knows how
//! dnsmasq records a lease.
//!
//! The pools arrive over `SetDhcpServerConfig` rather than being
//! re-parsed out of the rendered config: a reservation and a dynamic
//! lease look nothing alike in the lease file (a reservation only
//! appears once the client has actually asked), and the pool's range is
//! what turns a lease count into a utilisation figure.

use vstd::prelude::*;

use crate::ip::{parse_v4, Ipv4};
use crate::ordmap::OrdMap;
use crate::text::{is_text_before, lines, lowercase, parse_decimal, same_text, words};

verus! {

/// dnsmasq's lease file, as mgmtd's render points it at.
pub const LEASE_FILE: &'static str = "/var/lib/misc/dnsmasq.leases";

/// One configured pool, as mgmtd pushed it.
#[derive(Debug, PartialEq, Eq)]
pub struct Pool {
    pub name: String,
    /// Canonical CIDR.
    pub network: String,
    pub range_start: Ipv4,
    pub range_end: Ipv4,
    pub gateway: Ipv4,
    pub dns_servers: Vec<Ipv4>,
    pub lease_time: u32,
    pub domain_name: String,
    /// Fixed addresses keyed by canonical MAC.
    pub reservations: OrdMap<String, Ipv4>,
}

impl Default for Pool {
    fn default() -> (r: Pool)
        ensures
            r.name@.len() == 0,
            r.network@.len() == 0,
            r.range_start.bits == 0,
            r.range_end.bits == 0,
            r.gateway.bits == 0,
            r.dns_servers@.len() == 0,
            r.lease_time == 0,
            r.domain_name@.len() == 0,
            r.reservations.wf(),
            r.reservations.entries@.len() == 0,
    {
        Pool {
            name: String::new(),
            network: String::new(),
            range_start: Ipv4 { bits: 0 },
            range_end: Ipv4 { bits: 0 },
            gateway: Ipv4 { bits: 0 },
            dns_servers: Vec::new(),
            lease_time: 0,
            domain_name: String::new(),
            reservations: OrdMap::new(),
        }
    }
}

/// Is an address inside a pool's dynamic range?
pub open spec fn covers(pool: Pool, address: Ipv4) -> bool {
    pool.range_start.bits <= address.bits <= pool.range_end.bits
}

/// Is an address one of the first `n` that a pool reserves?
pub open spec fn reserves(pool: Pool, address: Ipv4, n: int) -> bool {
    exists|i: int| 0 <= i < n && (#[trigger] pool.reservations.entries@[i]).1 == address
}

impl Pool {
    /// How many addresses the dynamic range holds.
    pub fn capacity(&self) -> (r: u32)
        requires
            // the whole address space has one address more than any count
            self.range_start.bits > 0 || self.range_end.bits < u32::MAX,
        ensures
            self.range_start.bits <= self.range_end.bits ==> r == self.range_end.bits
                - self.range_start.bits + 1,
            self.range_start.bits > self.range_end.bits ==> r == 0,
    {
        if self.range_start.bits <= self.range_end.bits {
            self.range_end.bits - self.range_start.bits + 1
        } else {
            0
        }
    }

    /// Is `address` inside the dynamic range?
    pub fn in_range(&self, address: Ipv4) -> (r: bool)
        ensures
            r == covers(*self, address),
    {
        address.bits >= self.range_start.bits && address.bits <= self.range_end.bits
    }

    fn holds(&self, address: Ipv4) -> (r: bool)
        ensures
            r == (covers(*self, address) || reserves(
                *self,
                address,
                self.reservations.entries@.len() as int,
            )),
    {
        if self.in_range(address) {
            return true;
        }
        let mut i: usize = 0;
        while i < self.reservations.entries.len()
            invariant
                i <= self.reservations.entries@.len(),
                !reserves(*self, address, i as int),
            decreases self.reservations.entries@.len() - i,
        {
            if self.reservations.entries[i].1 == address {
                assert(self.reservations.entries@[i as int].1 == address);
                return true;
            }
            i = i + 1;
        }
        false
    }

    fn copy(&self) -> (r: Pool)
        ensures
            same_pool(r, *self),
    {
        let mut dns_servers: Vec<Ipv4> = Vec::new();
        let mut i: usize = 0;
        while i < self.dns_servers.len()
            invariant
                i <= self.dns_servers@.len(),
                dns_servers@ == self.dns_servers@.take(i as int),
            decreases self.dns_servers@.len() - i,
        {
            dns_servers.push(self.dns_servers[i]);
            i = i + 1;
            assert(dns_servers@ =~= self.dns_servers@.take(i as int));
        }
        assert(dns_servers@ =~= self.dns_servers@);
        let mut entries: Vec<(String, Ipv4)> = Vec::new();
        let mut k: usize = 0;
        while k < self.reservations.entries.len()
            invariant
                k <= self.reservations.entries@.len(),
                entries@ == self.reservations.entries@.take(k as int),
            decreases self.reservations.entries@.len() - k,
        {
            entries.push((self.reservations.entries[k].0.clone(), self.reservations.entries[k].1));
            k = k + 1;
            assert(entries@ =~= self.reservations.entries@.take(k as int));
        }
        assert(entries@ =~= self.reservations.entries@);
        Pool {
            name: self.name.clone(),
            network: self.network.clone(),
            range_start: self.range_start,
            range_end: self.range_end,
            gateway: self.gateway,
            dns_servers,
            lease_time: self.lease_time,
            domain_name: self.domain_name.clone(),
            reservations: OrdMap { entries },
        }
    }
}

/// Two pools say the same.
pub open spec fn same_pool(a: Pool, b: Pool) -> bool {
    &&& a.name@ == b.name@
    &&& a.network@ == b.network@
    &&& a.range_start == b.range_start
    &&& a.range_end == b.range_end
    &&& a.gateway == b.gateway
    &&& a.dns_servers@ == b.dns_servers@
    &&& a.lease_time == b.lease_time
    &&& a.domain_name@ == b.domain_name@
    &&& a.reservations.entries@ == b.reservations.entries@
}

/// Two lists of pools say the same.
pub open spec fn same_pools(a: Seq<Pool>, b: Seq<Pool>) -> bool {
    a.len() == b.len() && forall|i: int|
        #![trigger a[i]]
        #![trigger b[i]]
        0 <= i < a.len() ==> same_pool(a[i], b[i])
}

fn copy_pools(pools: &Vec<Pool>) -> (r: Vec<Pool>)
    ensures
        same_pools(r@, pools@),
{
    let mut r: Vec<Pool> = Vec::new();
    let mut i: usize = 0;
    while i < pools.len()
        invariant
            i <= pools@.len(),
            r@.len() == i,
            forall|j: int|
                #![trigger r@[j]]
                #![trigger pools@[j]]
                0 <= j < i ==> same_pool(r@[j], pools@[j]),
        decreases pools@.len() - i,
    {
        r.push(pools[i].copy());
        i = i + 1;
    }
    r
}

#[derive(Debug, PartialEq, Eq)]
pub struct Config {
    /// Pools in name order, as the config lists them.
    pub pools: Vec<Pool>,
    /// The lease file to read; overridable for tests.
    pub lease_file: String,
}

/// One lease or reservation, as `show dhcp server leases` prints it.
#[derive(Debug, PartialEq, Eq)]
pub struct Lease {
    pub address: Ipv4,
    pub mac: String,
    /// Empty when the client sent no hostname.
    pub hostname: String,
    /// Unix seconds; None for a reservation with no active lease.
    pub expires_at: Option<u64>,
    /// True when the address comes from a `reservation` leaf.
    pub reservation: bool,
    /// The pool that covers this address; empty when none does.
    pub pool: String,
}

/// A lease as mathematical values.
#[verifier::ext_equal]
pub struct LeaseModel {
    pub address: Ipv4,
    pub mac: Seq<char>,
    pub hostname: Seq<char>,
    pub expires_at: Option<u64>,
    pub reservation: bool,
    pub pool: Seq<char>,
}

impl DeepView for Lease {
    type V = LeaseModel;

    open spec fn deep_view(&self) -> LeaseModel {
        LeaseModel {
            address: self.address,
            mac: self.mac@,
            hostname: self.hostname@,
            expires_at: self.expires_at,
            reservation: self.reservation,
            pool: self.pool@,
        }
    }
}

#[derive(Debug)]
pub struct Snapshot {
    pub pools: Vec<Pool>,
    /// In-use dynamic leases per pool name.
    pub in_use: OrdMap<String, u32>,
    pub leases: Vec<Lease>,
}

// ------------------------------------------------------------ lease lines

/// One dnsmasq lease line: `<expiry> <mac> <ip> <hostname> <client-id>`.
/// A hostname of `*` means the client sent none; an expiry of 0 means never.
pub open spec fn lease_line(line: Seq<char>) -> Option<LeaseModel> {
    let w = crate::text::words_of(line);
    if w.len() >= 3 && crate::text::unsigned_upto(w[0], 10, u64::MAX as int) is Some
        && crate::ip::v4_value(w[2]) is Some {
        let expires = crate::text::unsigned_upto(w[0], 10, u64::MAX as int)->0;
        Some(
            LeaseModel {
                address: crate::ip::v4_value(w[2])->0,
                mac: crate::text::lower_text(w[1]),
                hostname: if w.len() > 3 && w[3] != "*"@ {
                    w[3]
                } else {
                    Seq::empty()
                },
                expires_at: if expires > 0 {
                    Some(expires as u64)
                } else {
                    None
                },
                reservation: false,
                pool: Seq::empty(),
            },
        )
    } else {
        None
    }
}

/// The view of an optional lease.
pub open spec fn lease_view(lease: Option<Lease>) -> Option<LeaseModel> {
    match lease {
        Some(l) => Some(l.deep_view()),
        None => None,
    }
}

/// One dnsmasq lease line. Junk is skipped rather than guessed at.
pub fn parse_lease_line(line: &str) -> (r: Option<Lease>)
    ensures
        lease_view(r) == lease_line(line@),
{
    let fields = words(line);
    let ghost w = fields.deep_view();
    assert(w.len() == fields@.len());
    if fields.len() < 3 {
        return None;
    }
    assert(w[0] == fields@[0]@ && w[1] == fields@[1]@ && w[2] == fields@[2]@);
    assert(w.len() > 3 ==> w[3] == fields@[3]@);
    match (parse_decimal(&fields[0], u64::MAX), parse_v4(&fields[2])) {
        (Some(expires), Some(address)) => {
            let hostname = if fields.len() > 3 && !same_text(&fields[3], "*") {
                fields[3].clone()
            } else {
                String::new()
            };
            let lease = Lease {
                address,
                mac: lowercase(&fields[1]),
                hostname,
                // dnsmasq writes 0 for an infinite lease.
                expires_at: if expires > 0 {
                    Some(expires)
                } else {
                    None
                },
                reservation: false,
                pool: String::new(),
            };
            assert(lease.deep_view() =~= lease_line(line@)->0);
            Some(lease)
        },
        _ => None,
    }
}

/// Is a line the lease of an address?
pub open spec fn leases_address(line: Seq<char>, address: Ipv4) -> bool {
    lease_line(line) matches Some(l) && l.address == address
}

/// The first `n` lines without those that lease an address, each with its
/// line feed.
pub open spec fn kept_text(lines: Seq<Seq<char>>, address: Ipv4, n: int) -> Seq<char>
    decreases n,
{
    if n <= 0 {
        Seq::empty()
    } else if leases_address(lines[n - 1], address) {
        kept_text(lines, address, n - 1)
    } else {
        kept_text(lines, address, n - 1) + lines[n - 1] + seq!['\n']
    }
}

/// Rewrite a lease file without one address; the flag says whether it
/// was there at all.
pub fn without_lease(text: &str, address: Ipv4) -> (r: (String, bool))
    ensures
        r.0@ == kept_text(
            crate::text::lines_of(text@),
            address,
            crate::text::lines_of(text@).len() as int,
        ),
        r.1 == exists|i: int|
            0 <= i < crate::text::lines_of(text@).len() && leases_address(
                #[trigger] crate::text::lines_of(text@)[i],
                address,
            ),
{
    let list = lines(text);
    let ghost all = crate::text::lines_of(text@);
    let mut kept = String::new();
    let mut removed: bool = false;
    let mut i: usize = 0;
    assert(all.len() == list@.len());
    assert(kept@ =~= Seq::empty());
    while i < list.len()
        invariant
            i <= list@.len(),
            all == list.deep_view(),
            all.len() == list@.len(),
            kept@ == kept_text(all, address, i as int),
            removed == exists|j: int| 0 <= j < i && leases_address(#[trigger] all[j], address),
        decreases list@.len() - i,
    {
        assert(all[i as int] == list@[i as int]@);
        let gone: bool = match parse_lease_line(&list[i]) {
            Some(lease) => lease.address == address,
            None => false,
        };
        assert(gone == leases_address(all[i as int], address));
        if gone {
            removed = true;
        } else {
            let ghost before = kept@;
            kept.append(&list[i]);
            kept.push('\n');
            assert(kept@ =~= before + all[i as int] + seq!['\n']);
        }
        i = i + 1;
    }
    (kept, removed)
}

// ---------------------------------------------------------------- merging

/// The first pool, from the `n`th on, that an address belongs to: by its
/// range, or by a reservation.
pub open spec fn pool_at(pools: Seq<Pool>, address: Ipv4, n: int) -> Option<int>
    decreases pools.len() - n,
{
    if n >= pools.len() {
        None
    } else if covers(pools[n], address) || reserves(
        pools[n],
        address,
        pools[n].reservations.entries@.len() as int,
    ) {
        Some(n)
    } else {
        pool_at(pools, address, n + 1)
    }
}

/// The name of the pool that an address belongs to; empty where none does.
pub open spec fn pool_name(pools: Seq<Pool>, address: Ipv4) -> Seq<char> {
    match pool_at(pools, address, 0) {
        Some(i) => pools[i].name@,
        None => Seq::empty(),
    }
}

/// The leases of the first `n` lines, each with its pool.
pub open spec fn leases_of(pools: Seq<Pool>, lines: Seq<Seq<char>>, n: int) -> Seq<LeaseModel>
    decreases n,
{
    if n <= 0 {
        Seq::empty()
    } else {
        match lease_line(lines[n - 1]) {
            Some(l) => leases_of(pools, lines, n - 1).push(
                LeaseModel { pool: pool_name(pools, l.address), ..l },
            ),
            None => leases_of(pools, lines, n - 1),
        }
    }
}

/// The first lease, from the `n`th on, that a reservation is about: by its
/// address, or by its MAC.
pub open spec fn reserved_at(
    leases: Seq<LeaseModel>,
    mac: Seq<char>,
    address: Ipv4,
    n: int,
) -> Option<int>
    decreases leases.len() - n,
{
    if n >= leases.len() {
        None
    } else if leases[n].address == address || leases[n].mac == mac {
        Some(n)
    } else {
        reserved_at(leases, mac, address, n + 1)
    }
}

/// The leases with one reservation: one that has a lease keeps the lease's
/// hostname and expiry and is marked as reserved; one that has none is a row
/// of its own.
pub open spec fn with_reservation(
    leases: Seq<LeaseModel>,
    pool: Seq<char>,
    mac: Seq<char>,
    address: Ipv4,
) -> Seq<LeaseModel> {
    match reserved_at(leases, mac, address, 0) {
        Some(i) => leases.update(i, LeaseModel { reservation: true, pool, ..leases[i] }),
        None => leases.push(
            LeaseModel {
                address,
                mac,
                hostname: Seq::empty(),
                expires_at: None,
                reservation: true,
                pool,
            },
        ),
    }
}

/// The leases with the first `n` reservations of a pool.
pub open spec fn with_pool(leases: Seq<LeaseModel>, pool: Pool, n: int) -> Seq<LeaseModel>
    decreases n,
{
    if n <= 0 {
        leases
    } else {
        with_reservation(
            with_pool(leases, pool, n - 1),
            pool.name@,
            pool.reservations.entries@[n - 1].0@,
            pool.reservations.entries@[n - 1].1,
        )
    }
}

/// The leases with the reservations of the first `n` pools.
pub open spec fn with_pools(leases: Seq<LeaseModel>, pools: Seq<Pool>, n: int) -> Seq<LeaseModel>
    decreases n,
{
    if n <= 0 {
        leases
    } else {
        with_pool(
            with_pools(leases, pools, n - 1),
            pools[n - 1],
            pools[n - 1].reservations.entries@.len() as int,
        )
    }
}

/// Every lease and reservation of a lease file.
pub open spec fn merged(pools: Seq<Pool>, text: Seq<char>) -> Seq<LeaseModel> {
    let lines = crate::text::lines_of(text);
    with_pools(leases_of(pools, lines, lines.len() as int), pools, pools.len() as int)
}

/// The first pool, from the `n`th on, whose range covers an address.
pub open spec fn range_at(pools: Seq<Pool>, address: Ipv4, n: int) -> Option<int>
    decreases pools.len() - n,
{
    if n >= pools.len() {
        None
    } else if covers(pools[n], address) {
        Some(n)
    } else {
        range_at(pools, address, n + 1)
    }
}

/// Does a lease take up an address of a pool's dynamic range? A reservation
/// does not compete for one.
pub open spec fn uses_pool(pools: Seq<Pool>, lease: LeaseModel, name: Seq<char>) -> bool {
    !lease.reservation && (range_at(pools, lease.address, 0) matches Some(i) && pools[i].name@
        == name)
}

/// How many of the first `n` leases take up an address of a pool's range.
pub open spec fn used(
    pools: Seq<Pool>,
    leases: Seq<LeaseModel>,
    n: int,
    name: Seq<char>,
) -> int
    decreases n,
{
    if n <= 0 {
        0
    } else if uses_pool(pools, leases[n - 1], name) {
        used(pools, leases, n - 1, name) + 1
    } else {
        used(pools, leases, n - 1, name)
    }
}

/// The leases of each pool can be counted in 32 bits.
pub open spec fn counts_fit(pools: Seq<Pool>, leases: Seq<LeaseModel>) -> bool {
    forall|name: Seq<char>| #[trigger]
        used(pools, leases, leases.len() as int, name) <= u32::MAX
}

/// Is a name one of the first `n` pools'?
pub open spec fn names_pool(pools: Seq<Pool>, name: Seq<char>, n: int) -> bool {
    exists|i: int| 0 <= i < n && (#[trigger] pools[i]).name@ == name
}

/// Does a lease sort before another, by address and then by MAC?
pub open spec fn lease_before(a: LeaseModel, b: LeaseModel) -> bool {
    a.address.bits < b.address.bits || (a.address.bits == b.address.bits
        && crate::text::text_before(a.mac, b.mac))
}

/// A lease put behind those that do not sort after it.
pub open spec fn insert_lease(s: Seq<LeaseModel>, l: LeaseModel) -> Seq<LeaseModel>
    decreases s.len(),
{
    if s.len() == 0 || !lease_before(l, s.last()) {
        s.push(l)
    } else {
        insert_lease(s.drop_last(), l).push(s.last())
    }
}

/// Leases sorted by address and MAC; equal ones keep their order.
pub open spec fn sorted_leases(s: Seq<LeaseModel>) -> Seq<LeaseModel>
    decreases s.len(),
{
    if s.len() == 0 {
        s
    } else {
        insert_lease(sorted_leases(s.drop_last()), s.last())
    }
}

fn find_pool(pools: &Vec<Pool>, address: Ipv4) -> (r: Option<usize>)
    ensures
        match r {
            Some(i) => i < pools@.len() && pool_at(pools@, address, 0) == Some(i as int),
            None => pool_at(pools@, address, 0) is None,
        },
{
    let mut i: usize = 0;
    while i < pools.len()
        invariant
            i <= pools@.len(),
            pool_at(pools@, address, 0) == pool_at(pools@, address, i as int),
        decreases pools@.len() - i,
    {
        if pools[i].holds(address) {
            return Some(i);
        }
        i = i + 1;
    }
    None
}

fn find_range(pools: &Vec<Pool>, address: Ipv4) -> (r: Option<usize>)
    ensures
        match r {
            Some(i) => i < pools@.len() && range_at(pools@, address, 0) == Some(i as int),
            None => range_at(pools@, address, 0) is None,
        },
{
    let mut i: usize = 0;
    while i < pools.len()
        invariant
            i <= pools@.len(),
            range_at(pools@, address, 0) == range_at(pools@, address, i as int),
        decreases pools@.len() - i,
    {
        if pools[i].in_range(address) {
            return Some(i);
        }
        i = i + 1;
    }
    None
}

fn read_leases(pools: &Vec<Pool>, text: &str) -> (r: Vec<Lease>)
    ensures
        r.deep_view() == leases_of(
            pools@,
            crate::text::lines_of(text@),
            crate::text::lines_of(text@).len() as int,
        ),
        r@.len() <= crate::text::lines_of(text@).len(),
{
    let list = lines(text);
    let ghost all = crate::text::lines_of(text@);
    let mut r: Vec<Lease> = Vec::new();
    let mut i: usize = 0;
    assert(all.len() == list@.len());
    assert(r.deep_view() =~= Seq::empty());
    while i < list.len()
        invariant
            i <= list@.len(),
            all == list.deep_view(),
            all.len() == list@.len(),
            r@.len() <= i,
            r.deep_view() == leases_of(pools@, all, i as int),
        decreases list@.len() - i,
    {
        assert(all[i as int] == list@[i as int]@);
        let ghost before = r.deep_view();
        match parse_lease_line(&list[i]) {
            Some(mut lease) => {
                let ghost bare = lease.deep_view();
                lease.pool = match find_pool(pools, lease.address) {
                    Some(k) => pools[k].name.clone(),
                    None => String::new(),
                };
                assert(lease.pool@ =~= pool_name(pools@, bare.address));
                r.push(lease);
                assert(r.deep_view() =~= before.push(
                    LeaseModel { pool: pool_name(pools@, bare.address), ..bare },
                ));
            },
            None => {},
        }
        i = i + 1;
    }
    r
}

fn reserve(leases: &mut Vec<Lease>, pool: &str, mac: &str, address: Ipv4)
    ensures
        final(leases).deep_view() == with_reservation(old(leases).deep_view(), pool@, mac@, address),
{
    let ghost before = leases.deep_view();
    let mut i: usize = 0;
    assert(before.len() == leases@.len());
    while i < leases.len()
        invariant
            i <= leases@.len(),
            leases@ == old(leases)@,
            before == leases.deep_view(),
            before.len() == leases@.len(),
            reserved_at(before, mac@, address, 0) == reserved_at(before, mac@, address, i as int),
        decreases leases@.len() - i,
    {
        assert(before[i as int] == leases@[i as int].deep_view());
        if leases[i].address == address || same_text(&leases[i].mac, mac) {
            leases[i].reservation = true;
            leases[i].pool = pool.to_owned();
            assert(leases.deep_view() =~= before.update(
                i as int,
                LeaseModel { reservation: true, pool: pool@, ..before[i as int] },
            ));
            return ;
        }
        i = i + 1;
    }
    let lease = Lease {
        address,
        mac: mac.to_owned(),
        hostname: String::new(),
        expires_at: None,
        reservation: true,
        pool: pool.to_owned(),
    };
    assert(lease.hostname@ =~= Seq::empty());
    let ghost added = lease.deep_view();
    leases.push(lease);
    assert(leases.deep_view() =~= before.push(added));
}

proof fn lemma_reserved_at(leases: Seq<LeaseModel>, mac: Seq<char>, address: Ipv4, n: int)
    requires
        0 <= n,
    ensures
        reserved_at(leases, mac, address, n) matches Some(i) ==> n <= i < leases.len() && (
        leases[i].address == address || leases[i].mac == mac),
    decreases leases.len() - n,
{
    if n < leases.len() {
        lemma_reserved_at(leases, mac, address, n + 1);
    }
}

proof fn lemma_used_grows(
    pools: Seq<Pool>,
    leases: Seq<LeaseModel>,
    n: int,
    m: int,
    name: Seq<char>,
)
    requires
        0 <= n <= m,
    ensures
        0 <= used(pools, leases, n, name) <= used(pools, leases, m, name),
    decreases m,
{
    if n < m {
        lemma_used_grows(pools, leases, n, m - 1, name);
    } else if m > 0 {
        lemma_used_grows(pools, leases, n - 1, m - 1, name);
    }
}

proof fn lemma_unnamed_unused(pools: Seq<Pool>, leases: Seq<LeaseModel>, n: int, name: Seq<char>)
    requires
        !names_pool(pools, name, pools.len() as int),
    ensures
        used(pools, leases, n, name) == 0,
    decreases n,
{
    if n > 0 {
        lemma_unnamed_unused(pools, leases, n - 1, name);
        lemma_range_at(pools, leases[n - 1].address, 0);
    }
}

proof fn lemma_range_at(pools: Seq<Pool>, address: Ipv4, n: int)
    requires
        0 <= n,
    ensures
        range_at(pools, address, n) matches Some(i) ==> n <= i < pools.len(),
    decreases pools.len() - n,
{
    if n < pools.len() {
        lemma_range_at(pools, address, n + 1);
    }
}

fn merge_reservations(leases: &mut Vec<Lease>, pools: &Vec<Pool>)
    ensures
        final(leases).deep_view() == with_pools(
            old(leases).deep_view(),
            pools@,
            pools@.len() as int,
        ),
{
    let ghost start = leases.deep_view();
    let mut p: usize = 0;
    while p < pools.len()
        invariant
            p <= pools@.len(),
            leases.deep_view() == with_pools(start, pools@, p as int),
        decreases pools@.len() - p,
    {
        let pool = &pools[p];
        let ghost before = leases.deep_view();
        let mut k: usize = 0;
        while k < pool.reservations.entries.len()
            invariant
                k <= pool.reservations.entries@.len(),
                leases.deep_view() == with_pool(before, *pool, k as int),
            decreases pool.reservations.entries@.len() - k,
        {
            let entry = &pool.reservations.entries[k];
            reserve(leases, &pool.name, &entry.0, entry.1);
            k = k + 1;
        }
        p = p + 1;
    }
}

fn pool_counts(pools: &Vec<Pool>) -> (r: OrdMap<String, u32>)
    ensures
        r.wf(),
        forall|name: Seq<char>| #[trigger]
            r@.dom().contains(name) <==> names_pool(pools@, name, pools@.len() as int),
        forall|name: Seq<char>| #[trigger] r@.dom().contains(name) ==> r@[name] == 0,
{
    let mut r: OrdMap<String, u32> = OrdMap::new();
    let mut i: usize = 0;
    while i < pools.len()
        invariant
            i <= pools@.len(),
            r.wf(),
            forall|name: Seq<char>| #[trigger]
                r@.dom().contains(name) <==> names_pool(pools@, name, i as int),
            forall|name: Seq<char>| #[trigger] r@.dom().contains(name) ==> r@[name] == 0,
        decreases pools@.len() - i,
    {
        r.insert(pools[i].name.clone(), 0);
        proof {
            assert forall|name: Seq<char>|
                names_pool(pools@, name, i + 1) <==> names_pool(pools@, name, i as int) || name
                    == pools@[i as int].name@ by {
                if names_pool(pools@, name, i as int) {
                    let j = choose|j: int| 0 <= j < i && (#[trigger] pools@[j]).name@ == name;
                    assert(pools@[j].name@ == name);
                }
            }
        }
        i = i + 1;
    }
    r
}

fn add_lease(rows: &mut Vec<Lease>, lease: Lease)
    ensures
        final(rows).deep_view() == insert_lease(old(rows).deep_view(), lease.deep_view()),
    decreases old(rows)@.len(),
{
    let ghost before = rows.deep_view();
    let len: usize = rows.len();
    assert(before.len() == len);
    let fits: bool = if len == 0 {
        true
    } else {
        let last = &rows[len - 1];
        assert(before.last() == last.deep_view());
        !(lease.address.bits < last.address.bits || (lease.address.bits == last.address.bits
            && is_text_before(&lease.mac, &last.mac)))
    };
    if fits {
        let ghost added = lease.deep_view();
        rows.push(lease);
        assert(rows.deep_view() =~= before.push(added));
    } else {
        match rows.pop() {
            Some(last) => {
                assert(rows.deep_view() =~= before.drop_last());
                let ghost behind = last.deep_view();
                add_lease(rows, lease);
                let ghost placed = rows.deep_view();
                rows.push(last);
                assert(rows.deep_view() =~= placed.push(behind));
            },
            None => {},
        }
    }
}

fn sort_leases(leases: Vec<Lease>) -> (r: Vec<Lease>)
    ensures
        r.deep_view() == sorted_leases(leases.deep_view()),
{
    let ghost all = leases.deep_view();
    let mut rest = leases;
    let mut held: Vec<Lease> = Vec::new();
    // Turned round, so that each can be taken from the end in turn.
    while rest.len() > 0
        invariant
            rest@.len() + held@.len() == all.len(),
            rest.deep_view() == all.take(rest@.len() as int),
            forall|i: int|
                #![trigger held@[i]]
                0 <= i < held@.len() ==> held@[i].deep_view() == all[all.len() - 1 - i],
        decreases rest@.len(),
    {
        let ghost before = rest.deep_view();
        match rest.pop() {
            Some(lease) => {
                assert(rest.deep_view() =~= before.drop_last());
                assert(before.drop_last() =~= all.take(rest@.len() as int));
                assert(lease.deep_view() == before.last());
                held.push(lease);
            },
            None => {},
        }
    }
    let mut r: Vec<Lease> = Vec::new();
    assert(r.deep_view() =~= sorted_leases(all.take(0)));
    while held.len() > 0
        invariant
            held@.len() <= all.len(),
            r.deep_view() == sorted_leases(all.take(all.len() - held@.len())),
            forall|i: int|
                #![trigger held@[i]]
                0 <= i < held@.len() ==> held@[i].deep_view() == all[all.len() - 1 - i],
        decreases held@.len(),
    {
        let ghost n = all.len() - held@.len();
        match held.pop() {
            Some(lease) => {
                assert(all.take(n + 1).drop_last() =~= all.take(n));
                add_lease(&mut r, lease);
            },
            None => {},
        }
    }
    assert(all.take(all.len() as int) =~= all);
    r
}

/// What `show dhcp server` answers for a configuration and a lease file.
pub open spec fn shows(r: Snapshot, config: Config, text: Seq<char>) -> bool {
    let rows = merged(config.pools@, text);
    &&& same_pools(r.pools@, config.pools@)
    &&& r.leases.deep_view() == sorted_leases(rows)
    &&& r.in_use.wf()
    &&& forall|name: Seq<char>| #[trigger]
        r.in_use@.dom().contains(name) <==> names_pool(
            config.pools@,
            name,
            config.pools@.len() as int,
        )
    &&& forall|name: Seq<char>| #[trigger]
        r.in_use@.dom().contains(name) ==> r.in_use@[name] == used(
            config.pools@,
            rows,
            rows.len() as int,
            name,
        )
}

/// Merge one lease file with the configured pools. Reservations are
/// configuration, so they show even before the client has ever asked.
/// Utilisation counts the dynamic range only: a reservation outside
/// it is not competing for a pool address.
pub fn snapshot_from(config: &Config, lease_text: &str) -> (r: Snapshot)
    requires
        counts_fit(config.pools@, merged(config.pools@, lease_text@)),
    ensures
        shows(r, *config, lease_text@),
{
    let mut leases = read_leases(&config.pools, lease_text);
    merge_reservations(&mut leases, &config.pools);
    let ghost rows = leases.deep_view();
    assert(rows == merged(config.pools@, lease_text@));
    let mut in_use = pool_counts(&config.pools);
    let mut i: usize = 0;
    while i < leases.len()
        invariant
            i <= leases@.len(),
            rows == leases.deep_view(),
            rows.len() == leases@.len(),
            counts_fit(config.pools@, rows),
            in_use.wf(),
            forall|name: Seq<char>| #[trigger]
                in_use@.dom().contains(name) <==> names_pool(
                    config.pools@,
                    name,
                    config.pools@.len() as int,
                ),
            forall|name: Seq<char>| #[trigger]
                in_use@.dom().contains(name) ==> in_use@[name] == used(
                    config.pools@,
                    rows,
                    i as int,
                    name,
                ),
        decreases leases@.len() - i,
    {
        assert(rows[i as int] == leases@[i as int].deep_view());
        if !leases[i].reservation {
            match find_range(&config.pools, leases[i].address) {
                Some(k) => {
                    let name = config.pools[k].name.clone();
                    let count: u32 = match in_use.get(&name) {
                        Some(n) => *n,
                        None => 0,
                    };
                    proof {
                        assert(config.pools@[k as int].name@ == name@);
                        assert(names_pool(config.pools@, name@, config.pools@.len() as int));
                        assert(in_use@.dom().contains(name@));
                        lemma_used_grows(config.pools@, rows, i + 1, rows.len() as int, name@);
                    }
                    in_use.insert(name, count + 1);
                },
                None => {},
            }
        }
        i = i + 1;
    }
    Snapshot { pools: copy_pools(&config.pools), in_use, leases: sort_leases(leases) }
}

fn count_used(pools: &Vec<Pool>, leases: &Vec<Lease>, name: &str) -> (r: usize)
    ensures
        r == used(pools@, leases.deep_view(), leases@.len() as int, name@),
{
    let ghost rows = leases.deep_view();
    let mut count: usize = 0;
    let mut i: usize = 0;
    while i < leases.len()
        invariant
            i <= leases@.len(),
            rows == leases.deep_view(),
            count == used(pools@, rows, i as int, name@),
            count <= i,
        decreases leases@.len() - i,
    {
        assert(rows[i as int] == leases@[i as int].deep_view());
        if !leases[i].reservation {
            match find_range(pools, leases[i].address) {
                Some(k) => if same_text(&pools[k].name, name) {
                    count = count + 1;
                },
                None => {},
            }
        }
        i = i + 1;
    }
    count
}

/// Can the leases of each pool be counted in 32 bits?
pub fn leases_fit(config: &Config, lease_text: &str) -> (r: bool)
    ensures
        r == counts_fit(config.pools@, merged(config.pools@, lease_text@)),
{
    let mut leases = read_leases(&config.pools, lease_text);
    merge_reservations(&mut leases, &config.pools);
    let ghost pools = config.pools@;
    let ghost rows = merged(pools, lease_text@);
    assert(leases.deep_view() == rows && rows.len() == leases@.len());
    let mut p: usize = 0;
    while p < config.pools.len()
        invariant
            p <= config.pools@.len(),
            pools == config.pools@,
            rows == leases.deep_view(),
            rows == merged(pools, lease_text@),
            rows.len() == leases@.len(),
            forall|name: Seq<char>|
                names_pool(pools, name, p as int) ==> #[trigger] used(
                    pools,
                    rows,
                    rows.len() as int,
                    name,
                ) <= u32::MAX,
        decreases config.pools@.len() - p,
    {
        let count: usize = count_used(&config.pools, &leases, &config.pools[p].name);
        if count as u64 > u32::MAX as u64 {
            assert(used(pools, rows, rows.len() as int, pools[p as int].name@) > u32::MAX);
            return false;
        }
        p = p + 1;
    }
    proof {
        assert forall|name: Seq<char>| #[trigger]
            used(pools, rows, rows.len() as int, name) <= u32::MAX by {
            if !names_pool(pools, name, pools.len() as int) {
                lemma_unnamed_unused(pools, rows, rows.len() as int, name);
            }
        }
    }
    true
}

// ----------------------------------------------------------------- engine

/// The server's configuration.
pub struct Engine {
    pub config: Config,
}

impl Engine {
    pub fn new() -> (r: Engine)
        ensures
            r.config.pools@.len() == 0,
            r.config.lease_file@ == LEASE_FILE@,
    {
        Engine { config: Config { pools: Vec::new(), lease_file: LEASE_FILE.to_owned() } }
    }

    /// Replace the configuration (declarative).
    pub fn set_config(&mut self, config: Config)
        ensures
            final(self).config.pools == config.pools,
            config.lease_file@.len() > 0 ==> final(self).config.lease_file == config.lease_file,
            config.lease_file@.len() == 0 ==> final(self).config.lease_file@ == LEASE_FILE@,
    {
        let mut config = config;
        if config.lease_file.as_str().is_empty() {
            config.lease_file = LEASE_FILE.to_owned();
        }
        self.config = config;
    }

    pub fn config(&self) -> (r: Config)
        ensures
            same_pools(r.pools@, self.config.pools@),
            r.lease_file@ == self.config.lease_file@,
    {
        Config {
            pools: copy_pools(&self.config.pools),
            lease_file: self.config.lease_file.clone(),
        }
    }

    /// The pools plus every lease and reservation, sorted for display, from
    /// what the lease file holds.
    pub fn snapshot(&self, lease_text: &str) -> (r: Snapshot)
        requires
            counts_fit(self.config.pools@, merged(self.config.pools@, lease_text@)),
        ensures
            shows(r, self.config, lease_text@),
    {
        snapshot_from(&self.config, lease_text)
    }

    /// `clear dhcp server lease <ip>`: what the lease file has to hold so
    /// that dnsmasq forgets one lease; nothing where it holds no such lease.
    ///
    /// dnsmasq only reads its lease file at startup (a SIGHUP reloads
    /// host files, not leases), so the file is rewritten and the unit
    /// restarted. A restart costs nothing a client notices: leases live
    /// in the file, and the ones left there survive it.
    pub fn clear_lease(&self, lease_text: &str, address: Ipv4) -> (r: Option<String>)
        ensures
            r is Some <==> exists|i: int|
                0 <= i < crate::text::lines_of(lease_text@).len() && leases_address(
                    #[trigger] crate::text::lines_of(lease_text@)[i],
                    address,
                ),
            r matches Some(kept) ==> kept@ == kept_text(
                crate::text::lines_of(lease_text@),
                address,
                crate::text::lines_of(lease_text@).len() as int,
            ),
    {
        let (kept, removed) = without_lease(lease_text, address);
        if removed {
            Some(kept)
        } else {
            None
        }
    }
}

// ------------------------------------------------------------------- laws

/// Is there a row for a reservation?
pub open spec fn has_row(leases: Seq<LeaseModel>, mac: Seq<char>, address: Ipv4) -> bool {
    exists|i: int|
        0 <= i < leases.len() && (#[trigger] leases[i]).reservation && (leases[i].address == address
            || leases[i].mac == mac)
}

proof fn lemma_row_stays(
    leases: Seq<LeaseModel>,
    pool: Seq<char>,
    m: Seq<char>,
    a: Ipv4,
    mac: Seq<char>,
    address: Ipv4,
)
    ensures
        has_row(with_reservation(leases, pool, m, a), m, a),
        has_row(leases, mac, address) ==> has_row(
            with_reservation(leases, pool, m, a),
            mac,
            address,
        ),
{
    let after = with_reservation(leases, pool, m, a);
    lemma_reserved_at(leases, m, a, 0);
    match reserved_at(leases, m, a, 0) {
        Some(i) => {
            assert(after[i].reservation);
        },
        None => {
            assert(after[leases.len() as int].reservation);
        },
    }
    if has_row(leases, mac, address) {
        let i = choose|i: int|
            0 <= i < leases.len() && (#[trigger] leases[i]).reservation && (leases[i].address
                == address || leases[i].mac == mac);
        assert(after[i].reservation);
    }
}

proof fn lemma_pool_rows(
    leases: Seq<LeaseModel>,
    pool: Pool,
    n: int,
    mac: Seq<char>,
    address: Ipv4,
)
    requires
        0 <= n <= pool.reservations.entries@.len(),
    ensures
        has_row(leases, mac, address) ==> has_row(with_pool(leases, pool, n), mac, address),
        forall|k: int|
            #![trigger pool.reservations.entries@[k]]
            0 <= k < n && pool.reservations.entries@[k].0@ == mac
                && pool.reservations.entries@[k].1 == address ==> has_row(
                with_pool(leases, pool, n),
                mac,
                address,
            ),
    decreases n,
{
    if n > 0 {
        lemma_pool_rows(leases, pool, n - 1, mac, address);
        lemma_row_stays(
            with_pool(leases, pool, n - 1),
            pool.name@,
            pool.reservations.entries@[n - 1].0@,
            pool.reservations.entries@[n - 1].1,
            mac,
            address,
        );
    }
}

proof fn lemma_pools_rows(
    leases: Seq<LeaseModel>,
    pools: Seq<Pool>,
    n: int,
    p: int,
    k: int,
)
    requires
        0 <= p < n <= pools.len(),
        0 <= k < pools[p].reservations.entries@.len(),
    ensures
        has_row(
            with_pools(leases, pools, n),
            pools[p].reservations.entries@[k].0@,
            pools[p].reservations.entries@[k].1,
        ),
    decreases n,
{
    let mac = pools[p].reservations.entries@[k].0@;
    let address = pools[p].reservations.entries@[k].1;
    let before = with_pools(leases, pools, n - 1);
    lemma_pool_rows(
        before,
        pools[n - 1],
        pools[n - 1].reservations.entries@.len() as int,
        mac,
        address,
    );
    if p < n - 1 {
        lemma_pools_rows(leases, pools, n - 1, p, k);
    }
}

/// Reservations are configuration: whatever the lease file holds, every
/// configured reservation has a row that is marked as reserved.
pub proof fn lemma_reservations_always_show(pools: Seq<Pool>, text: Seq<char>, p: int, k: int)
    requires
        0 <= p < pools.len(),
        0 <= k < pools[p].reservations.entries@.len(),
    ensures
        has_row(
            merged(pools, text),
            pools[p].reservations.entries@[k].0@,
            pools[p].reservations.entries@[k].1,
        ),
{
    let lines = crate::text::lines_of(text);
    lemma_pools_rows(
        leases_of(pools, lines, lines.len() as int),
        pools,
        pools.len() as int,
        p,
        k,
    );
}

/// No row sorts before one in front of it.
pub open spec fn in_order(s: Seq<LeaseModel>) -> bool {
    forall|i: int, j: int| 0 <= i < j < s.len() ==> !lease_before(#[trigger] s[j], #[trigger] s[i])
}

proof fn lemma_lease_order(a: LeaseModel, b: LeaseModel, c: LeaseModel)
    requires
        !lease_before(b, a),
        !lease_before(c, b),
    ensures
        !lease_before(c, a),
{
    crate::text::lemma_text_before_total(a.mac, b.mac);
    crate::text::lemma_text_before_total(b.mac, c.mac);
    if crate::text::text_before(c.mac, a.mac) {
        if crate::text::text_before(a.mac, b.mac) {
            crate::text::lemma_text_before_transitive(c.mac, a.mac, b.mac);
        }
    }
}

proof fn lemma_insert_in_order(s: Seq<LeaseModel>, l: LeaseModel)
    requires
        in_order(s),
    ensures
        in_order(insert_lease(s, l)),
        insert_lease(s, l).to_multiset() == s.to_multiset().insert(l),
        insert_lease(s, l).len() == s.len() + 1,
        s.len() > 0 ==> insert_lease(s, l).last() == l || insert_lease(s, l).last() == s.last(),
        s.len() == 0 ==> insert_lease(s, l).last() == l,
    decreases s.len(),
{
    broadcast use vstd::seq_lib::group_to_multiset_ensures;

    let r = insert_lease(s, l);
    if s.len() == 0 || !lease_before(l, s.last()) {
        assert forall|i: int, j: int| 0 <= i < j < r.len() implies !lease_before(
            #[trigger] r[j],
            #[trigger] r[i],
        ) by {
            if j == s.len() && i < s.len() - 1 {
                assert(!lease_before(s[s.len() - 1], s[i]));
                lemma_lease_order(s[i], s.last(), l);
            }
        }
    } else {
        let front = s.drop_last();
        assert forall|i: int, j: int| 0 <= i < j < front.len() implies !lease_before(
            #[trigger] front[j],
            #[trigger] front[i],
        ) by {
            assert(front[i] == s[i] && front[j] == s[j]);
        }
        lemma_insert_in_order(front, l);
        let t = insert_lease(front, l);
        assert(!lease_before(s.last(), l)) by {
            if lease_before(s.last(), l) {
                crate::text::lemma_text_before_irreflexive(l.mac);
                if crate::text::text_before(s.last().mac, l.mac) && crate::text::text_before(
                    l.mac,
                    s.last().mac,
                ) {
                    crate::text::lemma_text_before_transitive(l.mac, s.last().mac, l.mac);
                }
            }
        }
        assert(s =~= front.push(s.last()));
        if front.len() > 0 {
            assert(!lease_before(s[s.len() - 1], s[s.len() - 2]));
        }
        assert(!lease_before(s.last(), t.last()));
        assert forall|i: int, j: int| 0 <= i < j < r.len() implies !lease_before(
            #[trigger] r[j],
            #[trigger] r[i],
        ) by {
            if j == s.len() {
                assert(r[i] == t[i]);
                if i < t.len() - 1 {
                    assert(!lease_before(t[t.len() - 1], t[i]));
                    lemma_lease_order(t[i], t.last(), s.last());
                }
            } else {
                assert(r[i] == t[i] && r[j] == t[j]);
            }
        }
        assert(r.to_multiset() =~= s.to_multiset().insert(l));
    }
}

/// The rows are shown in the order of their addresses, and are the rows that
/// were merged: none is lost and none is added.
pub proof fn lemma_leases_sorted(s: Seq<LeaseModel>)
    ensures
        in_order(sorted_leases(s)),
        sorted_leases(s).to_multiset() == s.to_multiset(),
    decreases s.len(),
{
    broadcast use vstd::seq_lib::group_to_multiset_ensures;

    if s.len() > 0 {
        lemma_leases_sorted(s.drop_last());
        lemma_insert_in_order(sorted_leases(s.drop_last()), s.last());
        assert(s =~= s.drop_last().push(s.last()));
    }
}

/// The lines that are kept when an address is cleared.
pub open spec fn kept_lines(lines: Seq<Seq<char>>, address: Ipv4, n: int) -> Seq<Seq<char>>
    decreases n,
{
    if n <= 0 {
        Seq::empty()
    } else if leases_address(lines[n - 1], address) {
        kept_lines(lines, address, n - 1)
    } else {
        kept_lines(lines, address, n - 1).push(lines[n - 1])
    }
}

proof fn lemma_line_clean(text: Seq<char>, i: int)
    requires
        0 <= i < crate::text::lines_of(text).len(),
    ensures
        forall|j: int|
            0 <= j < crate::text::lines_of(text)[i].len() ==> #[trigger] crate::text::lines_of(
                text,
            )[i][j] != '\n',
{
    let at = crate::text::is_char('\n');
    let p = crate::text::split_text(text, '\n');
    let line = crate::text::lines_of(text)[i];
    crate::text::lemma_pieces_clean(text, at);
    assert forall|j: int| 0 <= j < line.len() implies #[trigger] line[j] != '\n' by {
        assert(line[j] == p[i][j]);
        assert(!at(p[i][j]));
    }
}

proof fn lemma_kept_pieces(text: Seq<char>, address: Ipv4, n: int)
    requires
        0 <= n <= crate::text::lines_of(text).len(),
    ensures
        crate::text::split_text(kept_text(crate::text::lines_of(text), address, n), '\n')
            == kept_lines(crate::text::lines_of(text), address, n).push(Seq::empty()),
    decreases n,
{
    let lines = crate::text::lines_of(text);
    let at = crate::text::is_char('\n');
    if n > 0 {
        lemma_kept_pieces(text, address, n - 1);
        if !leases_address(lines[n - 1], address) {
            let before = kept_text(lines, address, n - 1);
            let kept = kept_lines(lines, address, n - 1);
            let line = lines[n - 1];
            lemma_line_clean(text, n - 1);
            assert forall|j: int| 0 <= j < line.len() implies !at(#[trigger] line[j]) by {
                assert(lines[n - 1][j] != '\n');
            }
            crate::text::lemma_pieces_append(before, line, at);
            assert(kept.push(Seq::empty()).drop_last() =~= kept);
            assert(Seq::<char>::empty() + line =~= line);
            let whole = before + line + seq!['\n'];
            assert(whole.drop_last() =~= before + line);
            assert(whole.last() == '\n');
        }
    } else {
        assert(Seq::<Seq<char>>::empty().push(Seq::empty()) =~= seq![Seq::<char>::empty()]);
    }
}

/// Reading a line does not depend on the carriage return behind it.
proof fn lemma_return_is_blank(line: Seq<char>)
    ensures
        lease_line(crate::text::without_return(line)) == lease_line(line),
{
    if line.len() > 0 && line.last() == '\r' {
        crate::text::lemma_words_trailing(line);
    }
}

proof fn lemma_kept_leases(pools: Seq<Pool>, lines: Seq<Seq<char>>, address: Ipv4, n: int)
    requires
        0 <= n <= lines.len(),
    ensures
        leases_of(pools, kept_lines(lines, address, n), kept_lines(lines, address, n).len() as int)
            == leases_of(pools, lines, n).filter(|l: LeaseModel| l.address != address),
    decreases n,
{
    let other = |l: LeaseModel| l.address != address;
    reveal(Seq::filter);
    if n > 0 {
        lemma_kept_leases(pools, lines, address, n - 1);
        let kept = kept_lines(lines, address, n - 1);
        let front = leases_of(pools, lines, n - 1);
        match lease_line(lines[n - 1]) {
            Some(l) => {
                front.lemma_filter_push(
                    LeaseModel { pool: pool_name(pools, l.address), ..l },
                    other,
                );
            },
            None => {},
        }
        if !leases_address(lines[n - 1], address) {
            lemma_leases_prefix(
                pools,
                kept.push(lines[n - 1]),
                kept,
                kept.len() as int,
            );
        }
    }
}

proof fn lemma_leases_prefix(
    pools: Seq<Pool>,
    a: Seq<Seq<char>>,
    b: Seq<Seq<char>>,
    n: int,
)
    requires
        n <= a.len(),
        n <= b.len(),
        forall|i: int| #![trigger a[i]] 0 <= i < n ==> lease_line(a[i]) == lease_line(b[i]),
    ensures
        leases_of(pools, a, n) == leases_of(pools, b, n),
    decreases n,
{
    if n > 0 {
        lemma_leases_prefix(pools, a, b, n - 1);
        assert(lease_line(a[n - 1]) == lease_line(b[n - 1]));
    }
}

/// Clearing a lease removes that address and no other: read again, the
/// rewritten file holds every lease that it held before, in the same order,
/// except those of the address.
pub proof fn lemma_clearing_removes_exactly_one_address(
    pools: Seq<Pool>,
    text: Seq<char>,
    address: Ipv4,
)
    ensures
        ({
            let lines = crate::text::lines_of(text);
            let rest = crate::text::lines_of(kept_text(lines, address, lines.len() as int));
            leases_of(pools, rest, rest.len() as int) == leases_of(
                pools,
                lines,
                lines.len() as int,
            ).filter(|l: LeaseModel| l.address != address)
        }),
{
    let lines = crate::text::lines_of(text);
    let n = lines.len() as int;
    let kept = kept_lines(lines, address, n);
    let after = kept_text(lines, address, n);
    let rest = crate::text::lines_of(after);
    lemma_kept_pieces(text, address, n);
    let p = crate::text::split_text(after, '\n');
    assert(p.last() =~= Seq::empty());
    assert(rest.len() == kept.len());
    assert forall|i: int| #![trigger rest[i]] 0 <= i < rest.len() implies lease_line(rest[i])
        == lease_line(kept[i]) by {
        assert(p[i] == kept[i]);
        lemma_return_is_blank(kept[i]);
    }
    lemma_leases_prefix(pools, rest, kept, rest.len() as int);
    lemma_kept_leases(pools, lines, address, n);
}

} // verus!
