//! Laws of the DHCP server's leases.

use vstd::prelude::*;

use crate::dhcpserver::{LeaseModel, Pool};
use crate::ip::Ipv4;

verus! {

/// A line is a lease where it starts with three words: when the lease ends,
/// a station and an IPv4 address. The station is in lower case, an end of 0 is
/// none, and a star is no name.
pub proof fn lemma_lines_are_leases(line: Seq<char>)
    ensures
        ({
            let w = crate::text::words_of(line);
            let r = crate::dhcpserver::lease_line(line);
            &&& r is Some ==> w.len() >= 3
            &&& w.len() >= 3 ==> {
                let end = crate::text::unsigned_upto(w[0], 10, u64::MAX as int);
                let address = crate::ip::v4_value(w[2]);
                &&& r is Some <==> end is Some && address is Some
                &&& r matches Some(l) ==> {
                    &&& Some(l.address) == address
                    &&& l.mac == crate::text::lower_text(w[1])
                    &&& end == Some(0int) ==> l.expires_at is None
                    &&& end != Some(0int) ==> (l.expires_at matches Some(at) && end == Some(
                        at as int,
                    ))
                    &&& w.len() == 3 ==> l.hostname.len() == 0
                    &&& w.len() > 3 && w[3] == seq!['*'] ==> l.hostname.len() == 0
                    &&& w.len() > 3 && w[3] != seq!['*'] ==> l.hostname == w[3]
                    &&& !l.reservation
                    &&& l.pool.len() == 0
                }
            }
        }),
{
    reveal_strlit("*");
    assert("*"@ =~= seq!['*']);
    let w = crate::text::words_of(line);
    if w.len() >= 3 {
        crate::text::lemma_unsigned_nonneg(w[0], 10);
    }
}

/// Is an address one of a pool: in its range, or reserved in it?
pub open spec fn belongs(pool: Pool, address: Ipv4) -> bool {
    ||| pool.range_start.bits <= address.bits && address.bits <= pool.range_end.bits
    ||| exists|i: int|
        0 <= i < pool.reservations.entries@.len() && (#[trigger] pool.reservations.entries@[i]).1
            == address
}

/// An address is of the first pool that it belongs to.
pub proof fn lemma_addresses_have_pools(pools: Seq<Pool>, address: Ipv4, n: int)
    requires
        0 <= n,
    ensures
        match crate::dhcpserver::pool_at(pools, address, n) {
            Some(i) => n <= i < pools.len() && belongs(pools[i], address) && forall|j: int|
                n <= j < i ==> !belongs(#[trigger] pools[j], address),
            None => forall|j: int| n <= j < pools.len() ==> !belongs(#[trigger] pools[j], address),
        },
    decreases pools.len() - n,
{
    if n < pools.len() {
        assert(belongs(pools[n], address) <==> crate::dhcpserver::covers(pools[n], address)
            || crate::dhcpserver::reserves(
            pools[n],
            address,
            pools[n].reservations.entries@.len() as int,
        ));
        if !belongs(pools[n], address) {
            lemma_addresses_have_pools(pools, address, n + 1);
        }
    }
}

/// The leases are those of the lines, in order, each with the name of its
/// pool; a line that is no lease adds none.
pub proof fn lemma_leases_follow_lines(pools: Seq<Pool>, lines: Seq<Seq<char>>, n: int)
    requires
        0 < n <= lines.len(),
    ensures
        ({
            let front = crate::dhcpserver::leases_of(pools, lines, n - 1);
            let all = crate::dhcpserver::leases_of(pools, lines, n);
            let line = crate::dhcpserver::lease_line(lines[n - 1]);
            &&& crate::dhcpserver::leases_of(pools, lines, 0).len() == 0
            &&& line is None ==> all == front
            &&& line matches Some(l) ==> {
                &&& all.len() == front.len() + 1
                &&& all.drop_last() == front
                &&& all.last().address == l.address
                &&& all.last().mac == l.mac
                &&& all.last().hostname == l.hostname
                &&& all.last().expires_at == l.expires_at
                &&& !all.last().reservation
                &&& (forall|i: int|
                    0 <= i < pools.len() ==> !belongs(#[trigger] pools[i], l.address))
                    ==> all.last().pool.len() == 0
                &&& forall|i: int|
                    0 <= i < pools.len() && belongs(#[trigger] pools[i], l.address) && (forall|
                        j: int,
                    | 0 <= j < i ==> !belongs(#[trigger] pools[j], l.address)) ==> all.last().pool
                        == pools[i].name@
            }
        }),
{
    let front = crate::dhcpserver::leases_of(pools, lines, n - 1);
    let all = crate::dhcpserver::leases_of(pools, lines, n);
    if let Some(l) = crate::dhcpserver::lease_line(lines[n - 1]) {
        lemma_lines_are_leases(lines[n - 1]);
        lemma_addresses_have_pools(pools, l.address, 0);
        assert(all.drop_last() =~= front);
        assert forall|i: int|
            0 <= i < pools.len() && belongs(#[trigger] pools[i], l.address) && (forall|j: int|
                0 <= j < i ==> !belongs(#[trigger] pools[j], l.address)) implies all.last().pool
            == pools[i].name@ by {
            match crate::dhcpserver::pool_at(pools, l.address, 0) {
                Some(k) => {
                    if k < i {
                        assert(!belongs(pools[k], l.address));
                    }
                    if i < k {
                        assert(!belongs(pools[i], l.address));
                    }
                },
                None => {},
            }
        }
    }
}

/// Is a lease one that a reservation is about: of its address or its station?
pub open spec fn concerns(l: LeaseModel, mac: Seq<char>, address: Ipv4) -> bool {
    l.address == address || l.mac == mac
}

proof fn lemma_first_concerned(leases: Seq<LeaseModel>, mac: Seq<char>, address: Ipv4, n: int)
    requires
        0 <= n,
    ensures
        match crate::dhcpserver::reserved_at(leases, mac, address, n) {
            Some(i) => n <= i < leases.len() && concerns(leases[i], mac, address) && forall|j: int|
                n <= j < i ==> !concerns(#[trigger] leases[j], mac, address),
            None => forall|j: int|
                n <= j < leases.len() ==> !concerns(#[trigger] leases[j], mac, address),
        },
    decreases leases.len() - n,
{
    if n < leases.len() && !concerns(leases[n], mac, address) {
        lemma_first_concerned(leases, mac, address, n + 1);
    }
}

/// A reservation marks the first lease of its address or its station, under
/// its pool; where there is none it is a row of its own. No other row changes.
pub proof fn lemma_reservations_mark(
    leases: Seq<LeaseModel>,
    pool: Seq<char>,
    mac: Seq<char>,
    address: Ipv4,
)
    ensures
        ({
            let r = crate::dhcpserver::with_reservation(leases, pool, mac, address);
            let none = forall|j: int|
                0 <= j < leases.len() ==> !concerns(#[trigger] leases[j], mac, address);
            &&& none ==> {
                &&& r.len() == leases.len() + 1
                &&& r.drop_last() == leases
                &&& r.last().address == address
                &&& r.last().mac == mac
                &&& r.last().hostname.len() == 0
                &&& r.last().expires_at is None
                &&& r.last().reservation
                &&& r.last().pool == pool
            }
            &&& !none ==> r.len() == leases.len()
            &&& forall|i: int|
                0 <= i < leases.len() && concerns(#[trigger] leases[i], mac, address) && (forall|
                    j: int,
                |
                    0 <= j < i ==> !concerns(#[trigger] leases[j], mac, address)) ==> {
                    &&& r[i].reservation
                    &&& r[i].pool == pool
                    &&& r[i].address == leases[i].address
                    &&& r[i].mac == leases[i].mac
                    &&& r[i].hostname == leases[i].hostname
                    &&& r[i].expires_at == leases[i].expires_at
                }
            &&& forall|i: int|
                0 <= i < leases.len() && !(concerns(#[trigger] leases[i], mac, address) && (forall|
                    j: int,
                | 0 <= j < i ==> !concerns(#[trigger] leases[j], mac, address))) ==> r[i]
                    == leases[i]
        }),
{
    let r = crate::dhcpserver::with_reservation(leases, pool, mac, address);
    lemma_first_concerned(leases, mac, address, 0);
    match crate::dhcpserver::reserved_at(leases, mac, address, 0) {
        Some(k) => {
            assert(concerns(leases[k], mac, address));
            assert forall|i: int|
                0 <= i < leases.len() && concerns(#[trigger] leases[i], mac, address) && (forall|
                    j: int,
                |
                    0 <= j < i ==> !concerns(#[trigger] leases[j], mac, address)) implies i == k by {
                if k < i {
                    assert(!concerns(leases[k], mac, address));
                }
                if i < k {
                    assert(!concerns(leases[i], mac, address));
                }
            }
        },
        None => {
            assert(r.drop_last() =~= leases);
        },
    }
}

/// The reservations count pool by pool and in the order of each pool's list.
pub proof fn lemma_reservations_in_order(
    leases: Seq<LeaseModel>,
    pools: Seq<Pool>,
    pool: Pool,
    n: int,
    k: int,
)
    requires
        0 < n <= pools.len(),
        0 < k <= pool.reservations.entries@.len(),
    ensures
        crate::dhcpserver::with_pools(leases, pools, 0) == leases,
        crate::dhcpserver::with_pools(leases, pools, n) == crate::dhcpserver::with_pool(
            crate::dhcpserver::with_pools(leases, pools, n - 1),
            pools[n - 1],
            pools[n - 1].reservations.entries@.len() as int,
        ),
        crate::dhcpserver::with_pool(leases, pool, 0) == leases,
        crate::dhcpserver::with_pool(leases, pool, k) == crate::dhcpserver::with_reservation(
            crate::dhcpserver::with_pool(leases, pool, k - 1),
            pool.name@,
            pool.reservations.entries@[k - 1].0@,
            pool.reservations.entries@[k - 1].1,
        ),
{
}

/// Is an address in a pool's range?
pub open spec fn ranges(pool: Pool, address: Ipv4) -> bool {
    pool.range_start.bits <= address.bits && address.bits <= pool.range_end.bits
}

proof fn lemma_first_range(pools: Seq<Pool>, address: Ipv4, n: int)
    requires
        0 <= n,
    ensures
        match crate::dhcpserver::range_at(pools, address, n) {
            Some(i) => n <= i < pools.len() && ranges(pools[i], address) && forall|j: int|
                n <= j < i ==> !ranges(#[trigger] pools[j], address),
            None => forall|j: int| n <= j < pools.len() ==> !ranges(#[trigger] pools[j], address),
        },
    decreases pools.len() - n,
{
    if n < pools.len() && !ranges(pools[n], address) {
        lemma_first_range(pools, address, n + 1);
    }
}

/// A pool's addresses in use are the leases in its range that are no
/// reservations; an address in the ranges of two pools counts for the first.
pub proof fn lemma_addresses_in_use(
    pools: Seq<Pool>,
    leases: Seq<LeaseModel>,
    n: int,
    name: Seq<char>,
)
    requires
        0 < n <= leases.len(),
    ensures
        ({
            let l = leases[n - 1];
            let counted = !l.reservation && exists|i: int|
                0 <= i < pools.len() && (#[trigger] pools[i]).name@ == name && ranges(
                    pools[i],
                    l.address,
                ) && forall|j: int| 0 <= j < i ==> !ranges(#[trigger] pools[j], l.address);
            &&& crate::dhcpserver::used(pools, leases, 0, name) == 0
            &&& crate::dhcpserver::used(pools, leases, n, name) == crate::dhcpserver::used(
                pools,
                leases,
                n - 1,
                name,
            ) + (if counted {
                1int
            } else {
                0
            })
        }),
{
    let l = leases[n - 1];
    lemma_first_range(pools, l.address, 0);
    if exists|i: int|
        0 <= i < pools.len() && (#[trigger] pools[i]).name@ == name && ranges(pools[i], l.address)
            && forall|j: int| 0 <= j < i ==> !ranges(#[trigger] pools[j], l.address) {
        let i = choose|i: int|
            0 <= i < pools.len() && (#[trigger] pools[i]).name@ == name && ranges(
                pools[i],
                l.address,
            ) && forall|j: int| 0 <= j < i ==> !ranges(#[trigger] pools[j], l.address);
        match crate::dhcpserver::range_at(pools, l.address, 0) {
            Some(k) => {
                if k < i {
                    assert(!ranges(pools[k], l.address));
                }
                if i < k {
                    assert(!ranges(pools[i], l.address));
                }
            },
            None => {},
        }
    }
}

/// The leases are shown by rising address, and by station where two have one
/// address; none is lost or added.
pub proof fn lemma_leases_are_shown_sorted(s: Seq<LeaseModel>)
    ensures
        ({
            let r = crate::dhcpserver::sorted_leases(s);
            &&& r.to_multiset() == s.to_multiset()
            &&& forall|i: int, j: int|
                0 <= i < j < r.len() ==> {
                    &&& (#[trigger] r[i]).address.bits <= (#[trigger] r[j]).address.bits
                    &&& r[i].address.bits == r[j].address.bits ==> !crate::text::text_before(
                        r[j].mac,
                        r[i].mac,
                    )
                }
        }),
{
    crate::dhcpserver::lemma_leases_sorted(s);
    let r = crate::dhcpserver::sorted_leases(s);
    assert forall|i: int, j: int| 0 <= i < j < r.len() implies {
        &&& (#[trigger] r[i]).address.bits <= (#[trigger] r[j]).address.bits
        &&& r[i].address.bits == r[j].address.bits ==> !crate::text::text_before(
            r[j].mac,
            r[i].mac,
        )
    } by {
        assert(!crate::dhcpserver::lease_before(r[j], r[i]));
    }
}

} // verus!
