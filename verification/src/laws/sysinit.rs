//! Laws of bringing up a board.

use vstd::prelude::*;

use crate::schema::{BusRef, I2cDevice, I2cMux, I2cSection, Psu};
use crate::sysinit::{
    ActionModel, Entry, Event, Link, Next, PsuPass, PsuStage, ReportModel, Stage,
};

verus! {

// -------------------------------------------------------- hardware address

/// Fields of a board's memory, one behind the other: code, length, value.
pub open spec fn written(list: Seq<(u8, Seq<u8>)>) -> Seq<u8>
    decreases list.len(),
{
    if list.len() == 0 {
        Seq::empty()
    } else {
        seq![list[0].0, list[0].1.len() as u8] + list[0].1 + written(list.skip(1))
    }
}

/// The first field of six bytes with the code of the base address.
pub open spec fn first_address(list: Seq<(u8, Seq<u8>)>) -> Option<Seq<u8>>
    decreases list.len(),
{
    if list.len() == 0 {
        None
    } else if list[0].0 == 0x24 && list[0].1.len() == 6 {
        Some(list[0].1)
    } else {
        first_address(list.skip(1))
    }
}

proof fn lemma_fields(front: Seq<u8>, list: Seq<(u8, Seq<u8>)>, rest: Seq<u8>)
    requires
        forall|i: int| 0 <= i < list.len() ==> (#[trigger] list[i]).1.len() <= 255,
    ensures
        crate::sysinit::tlv_mac(
            front + (written(list) + rest),
            front.len() as int,
            (front.len() + written(list).len()) as int,
        ) == first_address(list),
    decreases list.len(),
{
    let b = front + (written(list) + rest);
    let at = front.len() as int;
    if list.len() > 0 {
        let (code, value) = list[0];
        assert(list[0].1.len() <= 255);
        let head = seq![code, value.len() as u8] + value;
        let more = written(list.skip(1));
        assert forall|i: int| 0 <= i < list.skip(1).len() implies (
        #[trigger] list.skip(1)[i]).1.len() <= 255 by {
            assert(list.skip(1)[i] == list[i + 1]);
        }
        assert(b =~= (front + head) + (more + rest));
        lemma_fields(front + head, list.skip(1), rest);
        assert(b[at] == code && b[at + 1] == value.len());
        assert(written(list).len() == head.len() + more.len());
        assert((front + head).len() == at + 2 + value.len());
        if value.len() == 6 {
            assert(b.subrange(at + 2, at + 8) =~= value);
        }
    }
}

/// The base address of a board is the first field with its code and six bytes,
/// behind the mark, a version and the length of all fields, whatever follows.
pub proof fn lemma_base_address_is_read(
    version: u8,
    list: Seq<(u8, Seq<u8>)>,
    rest: Seq<u8>,
)
    requires
        forall|i: int| 0 <= i < list.len() ==> (#[trigger] list[i]).1.len() <= 255,
        written(list).len() <= 0xffff,
    ensures
        ({
            let len = written(list).len();
            let front = seq![
                0x54u8,
                0x6cu8,
                0x76u8,
                0x49u8,
                0x6eu8,
                0x66u8,
                0x6fu8,
                0u8,
                version,
                (len / 256) as u8,
                (len % 256) as u8,
            ];
            crate::sysinit::onie_mac(front + (written(list) + rest)) == first_address(list)
        }),
{
    let len = written(list).len();
    let front = seq![
        0x54u8,
        0x6cu8,
        0x76u8,
        0x49u8,
        0x6eu8,
        0x66u8,
        0x6fu8,
        0u8,
        version,
        (len / 256) as u8,
        (len % 256) as u8,
    ];
    let b = front + (written(list) + rest);
    lemma_fields(front, list, rest);
    assert(front.len() == 11);
    assert(b[0] == 0x54 && b[1] == 0x6c && b[2] == 0x76 && b[3] == 0x49 && b[4] == 0x6e && b[5]
        == 0x66 && b[6] == 0x6f && b[7] == 0);
    assert(b[9] == (len / 256) as u8 && b[10] == (len % 256) as u8);
    assert(crate::bytes::word16(b, 9) == len);
}

/// A memory without the mark, or shorter than it says, has no address.
pub proof fn lemma_other_memories(b: Seq<u8>)
    ensures
        b.len() < 11 ==> crate::sysinit::onie_mac(b) is None,
        b.len() >= 11 && b[9] * 256 + b[10] + 11 > b.len() ==> crate::sysinit::onie_mac(b) is None,
        b.len() >= 11 && !(b[0] == 0x54 && b[1] == 0x6c && b[2] == 0x76 && b[3] == 0x49 && b[4]
            == 0x6e && b[5] == 0x66 && b[6] == 0x6f && b[7] == 0) ==> crate::sysinit::onie_mac(
            b,
        ) is None,
{
}

/// An address is of use where it is not all zeros and not a group's.
pub proof fn lemma_usable_addresses(mac: Seq<u8>)
    requires
        mac.len() == 6,
    ensures
        crate::sysinit::is_usable(mac) <==> !(mac[0] == 0 && mac[1] == 0 && mac[2] == 0 && mac[3]
            == 0 && mac[4] == 0 && mac[5] == 0) && mac[0] % 2 == 0,
{
    let z = Seq::new(6, |i: int| 0u8);
    if mac[0] == 0 && mac[1] == 0 && mac[2] == 0 && mac[3] == 0 && mac[4] == 0 && mac[5] == 0 {
        assert(mac =~= z);
    }
    if mac == z {
        assert(z[0] == 0 && z[1] == 0 && z[2] == 0 && z[3] == 0 && z[4] == 0 && z[5] == 0);
    }
}

/// The board's own address is that of its memory, where that is of use; else
/// that of its management port, where it has one and that is of use; else
/// there is none.
pub proof fn lemma_chosen_addresses(
    devices: Seq<I2cDevice>,
    has_management: bool,
    entries: Seq<Entry>,
    netdev: Option<Seq<char>>,
)
    ensures
        ({
            let r = crate::sysinit::chosen_mac(devices, has_management, entries, netdev);
            let memory = crate::sysinit::syseeprom_mac(devices, entries);
            let good = memory is Some && crate::sysinit::is_usable(memory->0);
            let port = if netdev is Some {
                crate::mac::mac_value(crate::text::trim_text(netdev->0))
            } else {
                None
            };
            &&& good ==> r == memory
            &&& !good && has_management && port is Some && crate::sysinit::is_usable(port->0) ==> r
                == port
            &&& !good && !(has_management && port is Some && crate::sysinit::is_usable(port->0))
                ==> r is None
        }),
{
}

proof fn lemma_first_memory(devices: Seq<I2cDevice>, n: int)
    requires
        0 <= n,
    ensures
        match crate::sysinit::syseeprom(devices, n) {
            Some(i) => n <= i < devices.len() && devices[i].purpose@ == "syseeprom"@ && forall|
                j: int,
            | n <= j < i ==> (#[trigger] devices[j]).purpose@ != "syseeprom"@,
            None => forall|j: int|
                n <= j < devices.len() ==> (#[trigger] devices[j]).purpose@ != "syseeprom"@,
        },
    decreases devices.len() - n,
{
    if n < devices.len() && devices[n].purpose@ != "syseeprom"@ {
        lemma_first_memory(devices, n + 1);
    }
}

/// The memory is the first device with that purpose. It is looked for on the
/// bus that is declared for it by number, then on any bus at its address.
pub proof fn lemma_memories_are_found(devices: Seq<I2cDevice>, entries: Seq<Entry>, i: int)
    ensures
        (forall|j: int| 0 <= j < devices.len() ==> (#[trigger] devices[j]).purpose@ != "syseeprom"@)
            ==> crate::sysinit::syseeprom_mac(devices, entries) is None,
        0 <= i < devices.len() && devices[i].purpose@ == "syseeprom"@ && (forall|j: int|
            0 <= j < i ==> (#[trigger] devices[j]).purpose@ != "syseeprom"@) ==> {
            let r = crate::sysinit::syseeprom_mac(devices, entries);
            let anywhere = crate::sysinit::mac_ending(
                entries,
                "-"@ + crate::text::hex_text(devices[i].address as nat, 4),
                0,
            );
            &&& devices[i].bus is Named ==> r == anywhere
            &&& devices[i].bus matches BusRef::Number(bus) ==> {
                let there = crate::sysinit::mac_named(
                    entries,
                    crate::text::decimal_text(bus as nat) + "-"@ + crate::text::hex_text(
                        devices[i].address as nat,
                        4,
                    ),
                    0,
                );
                &&& there is Some ==> r == there
                &&& there is None ==> r == anywhere
            }
        },
{
    lemma_first_memory(devices, 0);
    if let Some(k) = crate::sysinit::syseeprom(devices, 0) {
        assert(devices[k].purpose@ == "syseeprom"@);
        if 0 <= i < k {
            assert(devices[i].purpose@ != "syseeprom"@);
        }
    }
}

/// Of the entries with a name, or with an ending of it, the first that holds
/// an address counts.
pub proof fn lemma_entries_hold_addresses(
    entries: Seq<Entry>,
    name: Seq<char>,
    n: int,
)
    requires
        0 <= n < entries.len(),
    ensures
        ({
            let held = match entries[n].eeprom {
                Some(b) => crate::sysinit::onie_mac(b@),
                None => None,
            };
            &&& crate::sysinit::mac_named(entries, name, n) == (if entries[n].name@ == name && held
                is Some {
                held
            } else {
                crate::sysinit::mac_named(entries, name, n + 1)
            })
            &&& crate::sysinit::mac_ending(entries, name, n) == (if crate::text::finishes_with(
                entries[n].name@,
                name,
            ) && held is Some {
                held
            } else {
                crate::sysinit::mac_ending(entries, name, n + 1)
            })
            &&& crate::sysinit::mac_named(entries, name, entries.len() as int) is None
            &&& crate::sysinit::mac_ending(entries, name, entries.len() as int) is None
        }),
{
}

// ---------------------------------------------------------------- buses

/// A declared bus is the one that was found for it, itself where none was; a
/// root is known by its name only.
pub proof fn lemma_buses_resolve(map: Map<u32, u32>, roots: Map<Seq<char>, u32>, bus: BusRef)
    ensures
        ({
            let r = crate::sysinit::resolved_ref(map, roots, bus);
            &&& bus matches BusRef::Number(n) ==> r == Some(
                if map.dom().contains(n) {
                    map[n]
                } else {
                    n
                },
            )
            &&& bus matches BusRef::Named(name) ==> r == (if roots.dom().contains(name@) {
                Some(roots[name@])
            } else {
                None
            })
        }),
{
}

proof fn lemma_insert_number(s: Seq<u32>, n: u32, x: u32)
    requires
        forall|i: int, j: int| 0 <= i < j < s.len() ==> s[i] <= s[j],
    ensures
        ({
            let r = crate::sysinit::insert_number(s, n);
            &&& r.len() == s.len() + 1
            &&& r.contains(x) <==> s.contains(x) || x == n
            &&& forall|i: int, j: int| 0 <= i < j < r.len() ==> r[i] <= r[j]
            &&& r.last() == n || (s.len() > 0 && r.last() == s.last())
        }),
    decreases s.len(),
{
    let r = crate::sysinit::insert_number(s, n);
    if s.len() == 0 || n >= s.last() {
        assert(r[s.len() as int] == n);
        if s.contains(x) {
            let i = choose|i: int| 0 <= i < s.len() && s[i] == x;
            assert(r[i] == x);
        }
    } else {
        let front = s.drop_last();
        lemma_insert_number(front, n, x);
        let t = crate::sysinit::insert_number(front, n);
        assert(r == t.push(s.last()));
        if t.contains(x) {
            let i = choose|i: int| 0 <= i < t.len() && t[i] == x;
            assert(r[i] == x);
        }
        assert(r[t.len() as int] == s.last());
        if s.contains(x) {
            let i = choose|i: int| 0 <= i < s.len() && s[i] == x;
            if i < front.len() {
                assert(front[i] == x);
            }
        }
        if r.contains(x) {
            let i = choose|i: int| 0 <= i < r.len() && r[i] == x;
            if i < t.len() {
                assert(t[i] == x);
                if front.contains(x) {
                    let k = choose|k: int| 0 <= k < front.len() && front[k] == x;
                    assert(s[k] == x);
                }
            } else {
                assert(s[s.len() - 1] == x);
            }
        }
        assert forall|i: int, j: int| 0 <= i < j < r.len() implies r[i] <= r[j] by {
            if j == t.len() {
                assert(t[i] <= t.last()) by {
                    if i < t.len() - 1 {
                        assert(t[i] <= t[t.len() - 1]);
                    }
                }
            }
        }
    }
}

/// The adapters of a kind are numbered by their buses, from the lowest on; each
/// bus of an entry that matches is there, and no other.
pub proof fn lemma_adapters_are_numbered(
    entries: Seq<Entry>,
    prefix: Seq<char>,
    n: int,
    bus: u32,
)
    requires
        0 <= n <= entries.len(),
    ensures
        ({
            let r = crate::sysinit::matching_buses(entries, prefix, n);
            &&& r.contains(bus) <==> exists|i: int|
                0 <= i < n && crate::sysinit::adapter_bus(#[trigger] entries[i], prefix) == Some(
                    bus,
                )
            &&& forall|i: int, j: int| 0 <= i < j < r.len() ==> r[i] <= r[j]
        }),
    decreases n,
{
    if n > 0 {
        lemma_adapters_are_numbered(entries, prefix, n - 1, bus);
        let front = crate::sysinit::matching_buses(entries, prefix, n - 1);
        if let Some(b) = crate::sysinit::adapter_bus(entries[n - 1], prefix) {
            lemma_insert_number(front, b, bus);
        }
        if exists|i: int|
            0 <= i < n && crate::sysinit::adapter_bus(#[trigger] entries[i], prefix) == Some(bus) {
            let i = choose|i: int|
                0 <= i < n && crate::sysinit::adapter_bus(#[trigger] entries[i], prefix) == Some(
                    bus,
                );
            if i < n - 1 {
                assert(crate::sysinit::adapter_bus(entries[i], prefix) == Some(bus));
            }
        }
    }
}

/// An entry is an adapter where its name is the word for one with a number
/// behind it and what it says of itself begins as asked for.
pub proof fn lemma_adapters_are_known(e: Entry, prefix: Seq<char>, bus: u32)
    ensures
        crate::sysinit::adapter_bus(e, prefix) == Some(bus) <==> {
            &&& crate::text::after_prefix(e.name@, "i2c-"@) matches Some(t)
                && crate::text::unsigned_upto(t, 10, u32::MAX as int) == Some(bus as int)
            &&& e.adapter matches Some(t) && crate::text::begins_with(
                crate::text::trim_text(t@),
                prefix,
            )
        },
{
    if let Some(t) = crate::text::after_prefix(e.name@, "i2c-"@) {
        crate::text::lemma_unsigned_nonneg(t, 10);
    }
}

/// The instance of an adapter counts from the lowest bus on; there is none
/// behind the last.
pub proof fn lemma_instances(entries: Seq<Entry>, prefix: Seq<char>, instance: u32)
    ensures
        ({
            let all = crate::sysinit::matching_buses(entries, prefix, entries.len() as int);
            &&& instance < all.len() ==> crate::sysinit::adapter_at(entries, prefix, instance)
                == Some(all[instance as int])
            &&& instance >= all.len() ==> crate::sysinit::adapter_at(entries, prefix, instance)
                is None
        }),
{
}

/// The roots of the tree are found in order: the one without a name of its own
/// first, then those with names; the first adapter that is missing stops it.
pub proof fn lemma_roots_are_found(i2c: I2cSection, entries: Seq<Entry>, n: int)
    requires
        0 < n <= i2c.roots@.len(),
    ensures
        ({
            let r0 = crate::sysinit::roots_of(i2c, entries, 0);
            &&& i2c.root_adapter is None ==> r0 == Ok::<Map<Seq<char>, u32>, Seq<char>>(
                Map::empty(),
            )
            &&& i2c.root_adapter matches Some(p) ==> {
                &&& crate::sysinit::adapter_at(entries, p@, 0) matches Some(bus) ==> r0 == Ok::<
                    Map<Seq<char>, u32>,
                    Seq<char>,
                >(Map::empty().insert("root"@, bus))
                &&& crate::sysinit::adapter_at(entries, p@, 0) is None ==> r0 == Err::<
                    Map<Seq<char>, u32>,
                    Seq<char>,
                >(p@)
            }
        }),
        ({
            let before = crate::sysinit::roots_of(i2c, entries, n - 1);
            let after = crate::sysinit::roots_of(i2c, entries, n);
            let root = i2c.roots@[n - 1];
            let found = crate::sysinit::adapter_at(entries, root.adapter@, root.instance);
            &&& before is Err ==> after == before
            &&& before matches Ok(m) ==> {
                &&& found matches Some(bus) ==> after == Ok::<Map<Seq<char>, u32>, Seq<char>>(
                    m.insert(root.name@, bus),
                )
                &&& found is None ==> after == Err::<Map<Seq<char>, u32>, Seq<char>>(root.adapter@)
            }
        }),
{
}

proof fn lemma_insert_pair(s: Seq<(u32, u32)>, p: (u32, u32), x: (u32, u32))
    ensures
        crate::sysinit::insert_pair(s, p).contains(x) <==> s.contains(x) || x == p,
    decreases s.len(),
{
    let r = crate::sysinit::insert_pair(s, p);
    if s.len() == 0 || p.0 > s.last().0 || (p.0 == s.last().0 && p.1 >= s.last().1) {
        assert(r[s.len() as int] == p);
        if s.contains(x) {
            let i = choose|i: int| 0 <= i < s.len() && s[i] == x;
            assert(r[i] == x);
        }
    } else {
        let front = s.drop_last();
        lemma_insert_pair(front, p, x);
        let t = crate::sysinit::insert_pair(front, p);
        assert(r == t.push(s.last()));
        assert(r[t.len() as int] == s.last());
        if t.contains(x) {
            let i = choose|i: int| 0 <= i < t.len() && t[i] == x;
            assert(r[i] == x);
        }
        if s.contains(x) {
            let i = choose|i: int| 0 <= i < s.len() && s[i] == x;
            if i < front.len() {
                assert(front[i] == x);
            }
        }
        if r.contains(x) {
            let i = choose|i: int| 0 <= i < r.len() && r[i] == x;
            if i < t.len() {
                assert(t[i] == x);
                if front.contains(x) {
                    let k = choose|k: int| 0 <= k < front.len() && front[k] == x;
                    assert(s[k] == x);
                }
            } else {
                assert(s[s.len() - 1] == x);
            }
        }
    }
}

/// The buses behind a mux are those that its links lead to, each with its
/// channel.
pub proof fn lemma_channels_follow_links(links: Seq<Link>, n: int, p: (u32, u32))
    requires
        0 <= n <= links.len(),
    ensures
        crate::sysinit::channels_of(links, n).contains(p) <==> exists|i: int|
            0 <= i < n && crate::sysinit::channel_of(#[trigger] links[i]) == Some(p),
    decreases n,
{
    if n > 0 {
        lemma_channels_follow_links(links, n - 1, p);
        if let Some(q) = crate::sysinit::channel_of(links[n - 1]) {
            lemma_insert_pair(crate::sysinit::channels_of(links, n - 1), q, p);
        }
        if exists|i: int|
            0 <= i < n && crate::sysinit::channel_of(#[trigger] links[i]) == Some(p) {
            let i = choose|i: int|
                0 <= i < n && crate::sysinit::channel_of(#[trigger] links[i]) == Some(p);
            if i < n - 1 {
                assert(crate::sysinit::channel_of(links[i]) == Some(p));
            }
        }
    }
}

/// A link is a channel where its name is the word for one with a number behind
/// it and it leads to a bus.
pub proof fn lemma_links_are_channels(l: Link, channel: u32, bus: u32)
    ensures
        crate::sysinit::channel_of(l) == Some((channel, bus)) <==> {
            &&& crate::text::after_prefix(l.name@, "channel-"@) matches Some(t)
                && crate::text::unsigned_upto(t, 10, u32::MAX as int) == Some(channel as int)
            &&& l.target matches Some(t) && (crate::text::after_prefix(
                crate::sysinit::base_name(crate::text::trim_text(t@)),
                "i2c-"@,
            ) matches Some(b) && crate::text::unsigned_upto(b, 10, u32::MAX as int) == Some(
                bus as int,
            ))
        },
{
    if let Some(t) = crate::text::after_prefix(l.name@, "channel-"@) {
        crate::text::lemma_unsigned_nonneg(t, 10);
    }
    if let Some(t) = l.target {
        if let Some(b) = crate::text::after_prefix(
            crate::sysinit::base_name(crate::text::trim_text(t@)),
            "i2c-"@,
        ) {
            crate::text::lemma_unsigned_nonneg(b, 10);
        }
    }
}

/// The last part of a path has no separator, and stands behind one or is all
/// of it.
pub proof fn lemma_last_parts(path: Seq<char>)
    ensures
        ({
            let b = crate::sysinit::base_name(path);
            let n = path.len() - b.len();
            &&& 0 <= n
            &&& b == path.skip(n)
            &&& n > 0 ==> path[n - 1] == '/' || path[n - 1] == '\\'
            &&& forall|i: int| 0 <= i < b.len() ==> #[trigger] b[i] != '/' && b[i] != '\\'
        }),
    decreases path.len(),
{
    let b = crate::sysinit::base_name(path);
    if path.len() == 0 || path.last() == '/' || path.last() == '\\' {
        assert(b =~= path.skip(path.len() as int));
    } else {
        let front = path.drop_last();
        lemma_last_parts(front);
        let n = path.len() - b.len();
        assert(b =~= path.skip(n));
        let c = crate::sysinit::base_name(front);
        assert forall|i: int| 0 <= i < b.len() implies #[trigger] b[i] != '/' && b[i] != '\\' by {
            if i < c.len() {
                assert(c[i] == b[i]);
            }
        }
    }
}

/// A channel of a mux is the bus that is declared for it: the mux's first and
/// the channel's number. Channels that the mux does not have are passed over,
/// and other buses stay.
pub proof fn lemma_channels_are_numbered(
    map: Map<u32, u32>,
    mux: I2cMux,
    list: Seq<(u32, u32)>,
    n: int,
    declared: u32,
)
    requires
        0 < n <= list.len(),
        mux.child_bus_base + mux.channels <= 0x1_0000_0000,
    ensures
        ({
            let before = crate::sysinit::with_channels(map, mux, list, n - 1);
            let after = crate::sysinit::with_channels(map, mux, list, n);
            let (channel, bus) = list[n - 1];
            let own = channel < mux.channels && declared == mux.child_bus_base + channel;
            &&& crate::sysinit::with_channels(map, mux, list, 0) == map
            &&& own ==> after.dom().contains(declared) && after[declared] == bus
            &&& !own ==> {
                &&& after.dom().contains(declared) <==> before.dom().contains(declared)
                &&& before.dom().contains(declared) ==> after[declared] == before[declared]
            }
        }),
{
}

// --------------------------------------------------------------- steps

/// What a bring-up does next at a device: nothing more behind the last, else
/// it looks for the device on its bus, which has to be known.
pub open spec fn goes_to_device(i2c: I2cSection, r: ReportModel, i: int, next: Next) -> bool {
    if i >= i2c.devices@.len() {
        next == (Next::At { stage: Stage::Finished, bus: 0, action: ActionModel::Finished })
    } else {
        let d = i2c.devices@[i];
        match crate::sysinit::resolved_ref(r.map, r.roots, d.bus) {
            Some(bus) => next == (Next::At {
                stage: Stage::DeviceProbe(i as usize),
                bus,
                action: ActionModel::Probe { bus, address: d.address },
            }),
            None => next is Failed,
        }
    }
}

/// What a bring-up does next at a mux: behind the last it goes to the devices.
pub open spec fn goes_to_mux(i2c: I2cSection, r: ReportModel, i: int, next: Next) -> bool {
    if i >= i2c.muxes@.len() {
        goes_to_device(i2c, r, 0, next)
    } else {
        let m = i2c.muxes@[i];
        match crate::sysinit::resolved_ref(r.map, r.roots, m.parent_bus) {
            Some(bus) => next == (Next::At {
                stage: Stage::MuxProbe(i as usize),
                bus,
                action: ActionModel::Probe { bus, address: m.address },
            }),
            None => next is Failed,
        }
    }
}

/// What a bring-up does next at a write: behind the last it goes to the muxes.
pub open spec fn goes_to_write(i2c: I2cSection, r: ReportModel, i: int, next: Next) -> bool {
    if i >= i2c.pre_writes@.len() {
        goes_to_mux(i2c, r, 0, next)
    } else {
        match crate::sysinit::resolved_ref(r.map, r.roots, i2c.pre_writes@[i].bus) {
            Some(bus) => next == (Next::At {
                stage: Stage::Write(i as usize),
                bus,
                action: ActionModel::Write { bus, index: i as usize },
            }),
            None => next is Failed,
        }
    }
}

/// A bring-up starts with the writes, then takes the muxes, then the devices,
/// each in order.
pub proof fn lemma_bringup_starts(i2c: I2cSection, r: ReportModel, i: usize)
    ensures
        goes_to_write(i2c, r, i as int, crate::sysinit::at_write(i2c, r, i)),
        goes_to_mux(i2c, r, i as int, crate::sysinit::at_mux(i2c, r, i)),
        goes_to_device(i2c, r, i as int, crate::sysinit::at_device(i2c, r, i)),
{
}

/// A write that was done leads to the next; one that was refused or did not
/// start ends the bring-up.
pub proof fn lemma_writes_step(
    i2c: I2cSection,
    system: bool,
    r: ReportModel,
    i: usize,
    bus: u32,
    event: Event,
)
    requires
        i < usize::MAX,
    ensures
        ({
            let next = crate::sysinit::next_after(i2c, system, r, Stage::Write(i), bus, event);
            &&& event is Done ==> goes_to_write(i2c, r, i + 1, next)
            &&& event is Refused || event is NotStarted ==> next is Failed
        }),
{
}

/// A mux that is there is not made again; one that is not is made. Either way
/// its links are read next; where making it is refused the bring-up ends.
pub proof fn lemma_muxes_step(
    i2c: I2cSection,
    system: bool,
    r: ReportModel,
    i: usize,
    bus: u32,
    event: Event,
)
    requires
        i < i2c.muxes@.len(),
    ensures
        ({
            let m = i2c.muxes@[i as int];
            let probed = crate::sysinit::next_after(
                i2c,
                system,
                r,
                Stage::MuxProbe(i),
                bus,
                event,
            );
            let made = crate::sysinit::next_after(
                i2c,
                system,
                r,
                Stage::MuxCreate(i),
                bus,
                event,
            );
            let read = Next::At {
                stage: Stage::MuxLinks(i),
                bus,
                action: ActionModel::Links { bus, address: m.address },
            };
            &&& event == Event::Present(true) ==> probed == read
            &&& event == Event::Present(false) ==> probed == (Next::At {
                stage: Stage::MuxCreate(i),
                bus,
                action: ActionModel::Create { bus, driver: m.driver@, address: m.address },
            })
            &&& event is Done ==> made == read
            &&& event is Refused ==> made is Failed
            &&& i < usize::MAX ==> goes_to_mux(
                i2c,
                r,
                i + 1,
                crate::sysinit::next_after(i2c, system, r, Stage::MuxLinks(i), bus, event),
            )
        }),
{
}

/// A device that is there is not made again; one that is not is made; where
/// that is refused the bring-up ends.
pub proof fn lemma_devices_step(
    i2c: I2cSection,
    system: bool,
    r: ReportModel,
    i: usize,
    bus: u32,
    event: Event,
)
    requires
        i < i2c.devices@.len(),
        i < usize::MAX,
    ensures
        ({
            let d = i2c.devices@[i as int];
            let probed = crate::sysinit::next_after(
                i2c,
                system,
                r,
                Stage::DeviceProbe(i),
                bus,
                event,
            );
            let made = crate::sysinit::next_after(
                i2c,
                system,
                r,
                Stage::DeviceCreate(i),
                bus,
                event,
            );
            &&& event == Event::Present(true) ==> goes_to_device(i2c, r, i + 1, probed)
            &&& event == Event::Present(false) ==> probed == (Next::At {
                stage: Stage::DeviceCreate(i),
                bus,
                action: ActionModel::Create { bus, driver: d.driver@, address: d.address },
            })
            &&& event is Done ==> goes_to_device(i2c, r, i + 1, made)
            &&& event is Refused ==> made is Failed
        }),
{
}

/// The report tells what was made and what was there already, in order, and
/// nothing else changes it but a mux's links.
pub proof fn lemma_reports_tell(
    i2c: I2cSection,
    r: ReportModel,
    stage: Stage,
    bus: u32,
    event: Event,
)
    ensures
        ({
            let after = crate::sysinit::report_after(i2c, r, stage, bus, event);
            let found = (stage is MuxProbe || stage is DeviceProbe) && event == Event::Present(
                true,
            );
            let made = (stage is MuxCreate || stage is DeviceCreate) && event is Done;
            &&& after.root_bus == r.root_bus
            &&& after.roots == r.roots
            &&& !(stage is MuxLinks && event is Links) ==> after.map == r.map
            &&& !found ==> after.already_present == r.already_present
            &&& found ==> after.already_present.len() == r.already_present.len() + 1
                && after.already_present.drop_last() == r.already_present
            &&& !made ==> after.created == r.created
            &&& made ==> after.created.len() == r.created.len() + 1 && after.created.drop_last()
                == r.created
            &&& stage matches Stage::MuxLinks(i) ==> (event matches Event::Links(links)
                ==> after.map == crate::sysinit::with_channels(
                r.map,
                i2c.muxes@[i as int],
                crate::sysinit::channels_of(links@, links@.len() as int),
                crate::sysinit::channels_of(links@, links@.len() as int).len() as int,
            ))
        }),
{
    let after = crate::sysinit::report_after(i2c, r, stage, bus, event);
    if after.created.len() > r.created.len() {
        assert(after.created.drop_last() =~= r.created);
    }
    if after.already_present.len() > r.already_present.len() {
        assert(after.already_present.drop_last() =~= r.already_present);
    }
}

proof fn lemma_first_supply(psus: Seq<Psu>, r: ReportModel, n: int)
    requires
        0 <= n,
    ensures
        match crate::sysinit::psu_at(psus, r, n) {
            Some(i) => n <= i < psus.len() && crate::sysinit::resolved_ref(
                r.map,
                r.roots,
                psus[i].bus,
            ) is Some && forall|j: int|
                n <= j < i ==> crate::sysinit::resolved_ref(
                    r.map,
                    r.roots,
                    (#[trigger] psus[j]).bus,
                ) is None,
            None => forall|j: int|
                n <= j < psus.len() ==> crate::sysinit::resolved_ref(
                    r.map,
                    r.roots,
                    (#[trigger] psus[j]).bus,
                ) is None,
        },
    decreases psus.len() - n,
{
    if n < psus.len() && crate::sysinit::resolved_ref(r.map, r.roots, psus[n].bus) is None {
        lemma_first_supply(psus, r, n + 1);
    }
}

/// The power supplies are taken in order; one whose bus is not known is passed
/// over. One that is there is not made again, and one that cannot be made does
/// not stop the others.
pub proof fn lemma_supplies_step(
    psus: Seq<Psu>,
    r: ReportModel,
    pass: PsuPass,
    event: Event,
    k: int,
)
    requires
        pass.wf(psus),
        psus.len() < usize::MAX,
    ensures
        ({
            let (after, action) = crate::sysinit::psu_after(psus, r, pass, event);
            let from: int = match pass.stage {
                PsuStage::Probe(i) => i + 1,
                PsuStage::Create(i) => i + 1,
                PsuStage::Finished => 0,
            };
            let next = !(pass.stage is Finished) && !(pass.stage is Probe && event
                != Event::Present(true));
            &&& pass.stage matches PsuStage::Probe(i) ==> (event != Event::Present(true) ==> after
                == (PsuPass { stage: PsuStage::Create(i), bus: pass.bus }) && action == (
            ActionModel::Create {
                bus: pass.bus,
                driver: psus[i as int].driver@,
                address: psus[i as int].address,
            }))
            &&& pass.stage is Finished ==> after == pass && action == ActionModel::Finished
            &&& next && (forall|j: int|
                from <= j < psus.len() ==> crate::sysinit::resolved_ref(
                    r.map,
                    r.roots,
                    (#[trigger] psus[j]).bus,
                ) is None) ==> after.stage is Finished && action == ActionModel::Finished
            &&& next && from <= k < psus.len() && crate::sysinit::resolved_ref(
                r.map,
                r.roots,
                psus[k].bus,
            ) is Some && (forall|j: int|
                from <= j < k ==> crate::sysinit::resolved_ref(
                    r.map,
                    r.roots,
                    (#[trigger] psus[j]).bus,
                ) is None) ==> {
                let bus = crate::sysinit::resolved_ref(r.map, r.roots, psus[k].bus)->0;
                &&& after == (PsuPass { stage: PsuStage::Probe(k as usize), bus })
                &&& action == (ActionModel::Probe { bus, address: psus[k].address })
            }
        }),
{
    let from: int = match pass.stage {
        PsuStage::Probe(i) => i + 1,
        PsuStage::Create(i) => i + 1,
        PsuStage::Finished => 0,
    };
    lemma_first_supply(psus, r, from);
    if let Some(i) = crate::sysinit::psu_at(psus, r, from) {
        assert(crate::sysinit::resolved_ref(r.map, r.roots, psus[i].bus) is Some);
        if from <= k < i {
            assert(crate::sysinit::resolved_ref(r.map, r.roots, psus[k].bus) is None);
        }
    }
}

/// The report tells which power supplies were made and which were there.
pub proof fn lemma_supply_reports_tell(
    psus: Seq<Psu>,
    r: ReportModel,
    pass: PsuPass,
    event: Event,
)
    ensures
        ({
            let after = crate::sysinit::psu_report(psus, r, pass, event);
            let found = pass.stage is Probe && event == Event::Present(true);
            let made = pass.stage is Create && event is Done;
            &&& after.root_bus == r.root_bus
            &&& after.roots == r.roots
            &&& after.map == r.map
            &&& !found ==> after.already_present == r.already_present
            &&& found ==> after.already_present.len() == r.already_present.len() + 1
            &&& !made ==> after.created == r.created
            &&& made ==> after.created.len() == r.created.len() + 1
        }),
{
}

} // verus!
