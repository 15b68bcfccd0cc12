//! Laws of the interfaces MIB.

use vstd::prelude::*;

use crate::agentx::{BindView, Header, PduType, RangeView, ValueView};
use crate::interfaces::{AdminState, InterfaceState, OperStatus, PortCounters};
use crate::snmpsub::{Counters, EntryView};

verus! {

// ----------------------------------------------------------------- order

/// One identifier stands before another where it is the beginning of it, or
/// smaller in the first number that differs.
pub open spec fn smaller(a: Seq<u32>, b: Seq<u32>) -> bool {
    ||| a.len() < b.len() && b.take(a.len() as int) == a
    ||| exists|k: int|
        0 <= k < a.len() && k < b.len() && #[trigger] a[k] < b[k] && a.take(k) == b.take(k)
}

/// The order of identifiers is by their numbers, from the first on.
pub proof fn lemma_identifiers_are_ordered(a: Seq<u32>, b: Seq<u32>)
    ensures
        crate::snmpsub::oid_before(a, b) <==> smaller(a, b),
    decreases a.len(),
{
    if b.len() == 0 {
    } else if a.len() == 0 {
        assert(b.take(0) =~= a);
    } else if a[0] != b[0] {
        if a[0] < b[0] {
            assert(a.take(0) =~= b.take(0));
        } else {
            if a.len() < b.len() && b.take(a.len() as int) == a {
                assert(b.take(a.len() as int)[0] == a[0]);
            }
            assert forall|k: int|
                0 <= k < a.len() && k < b.len() && #[trigger] a[k] < b[k] implies a.take(k)
                != b.take(k) by {
                if k > 0 {
                    assert(a.take(k)[0] == a[0] && b.take(k)[0] == b[0]);
                }
            }
        }
    } else {
        let x = a.skip(1);
        let y = b.skip(1);
        lemma_identifiers_are_ordered(x, y);
        if a.len() < b.len() {
            if y.take(x.len() as int) == x {
                assert(b.take(a.len() as int) =~= a) by {
                    assert forall|i: int| 0 <= i < a.len() implies #[trigger] b.take(
                        a.len() as int,
                    )[i] == a[i] by {
                        if i > 0 {
                            assert(y.take(x.len() as int)[i - 1] == x[i - 1]);
                        }
                    }
                }
            }
            if b.take(a.len() as int) == a {
                assert(y.take(x.len() as int) =~= x) by {
                    assert forall|i: int| 0 <= i < x.len() implies #[trigger] y.take(
                        x.len() as int,
                    )[i] == x[i] by {
                        assert(b.take(a.len() as int)[i + 1] == a[i + 1]);
                    }
                }
            }
        }
        if exists|k: int|
            0 <= k < x.len() && k < y.len() && #[trigger] x[k] < y[k] && x.take(k) == y.take(k) {
            let k = choose|k: int|
                0 <= k < x.len() && k < y.len() && #[trigger] x[k] < y[k] && x.take(k) == y.take(k);
            assert(a[k + 1] < b[k + 1]);
            assert(a.take(k + 1) =~= b.take(k + 1)) by {
                assert forall|i: int| 0 <= i < k + 1 implies #[trigger] a.take(k + 1)[i] == b.take(
                    k + 1,
                )[i] by {
                    if i > 0 {
                        assert(x.take(k)[i - 1] == y.take(k)[i - 1]);
                    }
                }
            }
        }
        if exists|k: int|
            0 <= k < a.len() && k < b.len() && #[trigger] a[k] < b[k] && a.take(k) == b.take(k) {
            let k = choose|k: int|
                0 <= k < a.len() && k < b.len() && #[trigger] a[k] < b[k] && a.take(k) == b.take(k);
            assert(k > 0);
            assert(x[k - 1] < y[k - 1]);
            assert(x.take(k - 1) =~= y.take(k - 1)) by {
                assert forall|i: int| 0 <= i < k - 1 implies #[trigger] x.take(k - 1)[i] == y.take(
                    k - 1,
                )[i] by {
                    assert(a.take(k)[i + 1] == b.take(k)[i + 1]);
                }
            }
        }
    }
}

// --------------------------------------------------------------- indexes

/// A front panel port has its own number as index, up to 999; a management
/// port has 1000 more than its number, up to 1999; a port channel 2000 more,
/// up to 9999; a VLAN 10000 more. What does not fit has none, and so has any
/// other kind.
pub proof fn lemma_indexes(name: Seq<char>, index: u32, n: nat)
    ensures
        crate::snmpsub::index_of("ethernet"@, name, index) == (if 0 < index && index <= 999 {
            Some(index as int)
        } else {
            None
        }),
        name == "Management"@ + crate::text::decimal_text(n) ==> crate::snmpsub::index_of(
            "management"@,
            name,
            index,
        ) == (if n <= 999 {
            Some(1000 + n as int)
        } else {
            None
        }),
        name == "Port-Channel"@ + crate::text::decimal_text(n) ==> crate::snmpsub::index_of(
            "port-channel"@,
            name,
            index,
        ) == (if n <= 7999 {
            Some(2000 + n as int)
        } else {
            None
        }),
        name == "Vlan"@ + crate::text::decimal_text(n) ==> crate::snmpsub::index_of(
            "vlan"@,
            name,
            index,
        ) == (if 10000 + n <= u32::MAX {
            Some(10000 + n as int)
        } else {
            None
        }),
{
    reveal_strlit("ethernet");
    reveal_strlit("management");
    reveal_strlit("port-channel");
    reveal_strlit("vlan");
    assert("ethernet"@.len() != "management"@.len());
    assert("ethernet"@.len() != "port-channel"@.len());
    assert("ethernet"@.len() != "vlan"@.len());
    assert("management"@.len() != "port-channel"@.len());
    assert("management"@.len() != "vlan"@.len());
    assert("port-channel"@.len() != "vlan"@.len());
    lemma_number_behind("Management"@, n);
    lemma_number_behind("Port-Channel"@, n);
    lemma_number_behind("Vlan"@, n);
}

proof fn lemma_number_behind(prefix: Seq<char>, n: nat)
    ensures
        crate::snmpsub::trailing_number(prefix + crate::text::decimal_text(n), prefix) == (if n
            <= u32::MAX {
            Some(n as int)
        } else {
            None
        }),
{
    let d = crate::text::decimal_text(n);
    let s = prefix + d;
    crate::text::lemma_decimal_value(n);
    assert(s.take(prefix.len() as int) =~= prefix);
    assert(s.skip(prefix.len() as int) =~= d);
}

// ----------------------------------------------------------------- cells

/// A column of the interfaces table.
pub open spec fn column(col: u32, index: u32) -> Seq<u32> {
    seq![1u32, 3u32, 6u32, 1u32, 2u32, 1u32, 2u32, 2u32, 1u32, col, index]
}

/// A column of the extended interfaces table.
pub open spec fn x_column(col: u32, index: u32) -> Seq<u32> {
    seq![1u32, 3u32, 6u32, 1u32, 2u32, 1u32, 31u32, 1u32, 1u32, 1u32, col, index]
}

proof fn lemma_columns(col: u32, index: u32)
    ensures
        crate::snmpsub::if_table().push(col).push(index) == column(col, index),
        crate::snmpsub::if_x_table().push(col).push(index) == x_column(col, index),
{
    assert(crate::snmpsub::if_table().push(col).push(index) =~= column(col, index));
    assert(crate::snmpsub::if_x_table().push(col).push(index) =~= x_column(col, index));
}

/// The cell of a list at a place.
pub open spec fn is_cell(e: EntryView, oid: Seq<u32>, value: ValueView) -> bool {
    e.oid == oid && e.value == value
}

/// What an interface is and how it stands, in the first columns of its row.
pub proof fn lemma_identity_columns(index: u32, iface: InterfaceState)
    ensures
        ({
            let e = crate::snmpsub::if_row_identity(index, iface);
            &&& e.len() == 9
            &&& is_cell(e[0], column(1, index), ValueView::Integer(index as i32))
            &&& is_cell(
                e[1],
                column(2, index),
                ValueView::OctetString(vstd::utf8::encode_utf8(iface.name@)),
            )
            &&& is_cell(
                e[2],
                column(3, index),
                ValueView::Integer(
                    if iface.kind@ == "ethernet"@ {
                        6i32
                    } else {
                        53i32
                    },
                ),
            )
            &&& is_cell(e[3], column(4, index), ValueView::Integer(iface.mtu as i32))
            &&& e[4].oid == column(5, index)
            &&& e[4].value matches ValueView::Gauge32(v) && v == (if iface.speed_mbps * 1_000_000
                <= 0xffff_ffff {
                iface.speed_mbps * 1_000_000
            } else {
                0xffff_ffff
            })
            &&& e[5].oid == column(6, index)
            &&& is_cell(
                e[6],
                column(7, index),
                ValueView::Integer(
                    if iface.admin_state == AdminState::Down {
                        2i32
                    } else {
                        1i32
                    },
                ),
            )
            &&& is_cell(
                e[7],
                column(8, index),
                ValueView::Integer(
                    if iface.oper_status == OperStatus::Up {
                        1i32
                    } else {
                        2i32
                    },
                ),
            )
            &&& e[8].oid == column(9, index)
            &&& e[8].value matches ValueView::TimeTicks(v) && v == hundredths(
                iface.seconds_since_change,
            )
        }),
{
    lemma_columns(1, index);
    lemma_columns(2, index);
    lemma_columns(3, index);
    lemma_columns(4, index);
    lemma_columns(5, index);
    lemma_columns(6, index);
    lemma_columns(7, index);
    lemma_columns(8, index);
    lemma_columns(9, index);
}

/// Seconds in hundredths, as far as 32 bits hold them; 0 where none are known.
pub open spec fn hundredths(secs: Option<u64>) -> int {
    match secs {
        None => 0,
        Some(s) => if s * 100 <= 0xffff_ffff {
            s * 100
        } else {
            0xffff_ffff
        },
    }
}

/// A hardware address is six bytes in hexadecimal between colons; anything
/// else is no bytes at all.
pub proof fn lemma_hardware_addresses(mac: Seq<char>)
    ensures
        ({
            let pieces = crate::text::split_text(mac, ':');
            let whole = pieces.len() == 6 && forall|i: int|
                0 <= i < 6 ==> crate::text::unsigned_upto(#[trigger] pieces[i], 16, 255) is Some;
            &&& crate::snmpsub::phys_view(mac) matches ValueView::OctetString(b) && {
                &&& !whole ==> b.len() == 0
                &&& whole ==> b.len() == 6 && forall|i: int|
                    0 <= i < 6 ==> crate::text::unsigned_upto(#[trigger] pieces[i], 16, 255)
                        == Some(b[i] as int)
            }
        }),
{
    let pieces = crate::text::split_text(mac, ':');
    lemma_hex(pieces);
}

proof fn lemma_hex(pieces: Seq<Seq<char>>)
    ensures
        match crate::snmpsub::hex_bytes(pieces) {
            Some(b) => b.len() == pieces.len() && forall|i: int|
                0 <= i < pieces.len() ==> crate::text::unsigned_upto(#[trigger] pieces[i], 16, 255)
                    == Some(b[i] as int),
            None => exists|i: int|
                0 <= i < pieces.len() && crate::text::unsigned_upto(
                    #[trigger] pieces[i],
                    16,
                    255,
                ) is None,
        },
    decreases pieces.len(),
{
    if pieces.len() > 0 {
        let front = pieces.drop_last();
        lemma_hex(front);
        crate::text::lemma_unsigned_nonneg(pieces.last(), 16);
        match crate::snmpsub::hex_bytes(front) {
            None => {
                let i = choose|i: int|
                    0 <= i < front.len() && crate::text::unsigned_upto(
                        #[trigger] front[i],
                        16,
                        255,
                    ) is None;
                assert(pieces[i] == front[i]);
            },
            Some(b) => {
                assert(pieces.last() == pieces[pieces.len() - 1]);
                if let Some(last) = crate::text::unsigned_upto(pieces.last(), 16, 255) {
                    let all = b.push(last as u8);
                    assert(crate::snmpsub::hex_bytes(pieces) == Some(all));
                    assert forall|i: int| 0 <= i < pieces.len() implies crate::text::unsigned_upto(
                        #[trigger] pieces[i],
                        16,
                        255,
                    ) == Some(all[i] as int) by {
                        if i < front.len() {
                            assert(front[i] == pieces[i]);
                        }
                    }
                }
            },
        }
    }
}

/// A counter of 32 bits shows a larger one modulo its size.
pub open spec fn counts(v: ValueView, n: int) -> bool {
    v matches ValueView::Counter32(c) && c == n % 0x1_0000_0000
}

/// What an interface counted, in 32 bits: the packets to a group and to all
/// count together.
pub proof fn lemma_counter_columns(index: u32, c: PortCounters)
    ensures
        ({
            let e = crate::snmpsub::if_row_counters(index, c);
            &&& e.len() == 10
            &&& e[0].oid == column(10, index) && counts(e[0].value, c.in_octets as int)
            &&& e[1].oid == column(11, index) && counts(e[1].value, c.in_ucast_pkts as int)
            &&& e[2].oid == column(12, index) && counts(
                e[2].value,
                c.in_mcast_pkts + c.in_bcast_pkts,
            )
            &&& e[3].oid == column(13, index) && counts(e[3].value, c.in_discards as int)
            &&& e[4].oid == column(14, index) && counts(e[4].value, c.in_errors as int)
            &&& e[5].oid == column(16, index) && counts(e[5].value, c.out_octets as int)
            &&& e[6].oid == column(17, index) && counts(e[6].value, c.out_ucast_pkts as int)
            &&& e[7].oid == column(18, index) && counts(
                e[7].value,
                c.out_mcast_pkts + c.out_bcast_pkts,
            )
            &&& e[8].oid == column(19, index) && counts(e[8].value, c.out_discards as int)
            &&& e[9].oid == column(20, index) && counts(e[9].value, c.out_errors as int)
        }),
{
    lemma_columns(10, index);
    lemma_columns(11, index);
    lemma_columns(12, index);
    lemma_columns(13, index);
    lemma_columns(14, index);
    lemma_columns(16, index);
    lemma_columns(17, index);
    lemma_columns(18, index);
    lemma_columns(19, index);
    lemma_columns(20, index);
}

/// What an interface counted, in the extended table.
pub proof fn lemma_x_counter_columns(index: u32, name: Seq<char>, c: PortCounters)
    ensures
        ({
            let e = crate::snmpsub::if_x_row_counters(index, name, c);
            &&& e.len() == 13
            &&& is_cell(
                e[0],
                x_column(1, index),
                ValueView::OctetString(vstd::utf8::encode_utf8(name)),
            )
            &&& e[1].oid == x_column(2, index) && counts(e[1].value, c.in_mcast_pkts as int)
            &&& e[2].oid == x_column(3, index) && counts(e[2].value, c.in_bcast_pkts as int)
            &&& e[3].oid == x_column(4, index) && counts(e[3].value, c.out_mcast_pkts as int)
            &&& e[4].oid == x_column(5, index) && counts(e[4].value, c.out_bcast_pkts as int)
            &&& is_cell(e[5], x_column(6, index), ValueView::Counter64(c.in_octets))
            &&& is_cell(e[6], x_column(7, index), ValueView::Counter64(c.in_ucast_pkts))
            &&& is_cell(e[7], x_column(8, index), ValueView::Counter64(c.in_mcast_pkts))
            &&& is_cell(e[8], x_column(9, index), ValueView::Counter64(c.in_bcast_pkts))
            &&& is_cell(e[9], x_column(10, index), ValueView::Counter64(c.out_octets))
            &&& is_cell(e[10], x_column(11, index), ValueView::Counter64(c.out_ucast_pkts))
            &&& is_cell(e[11], x_column(12, index), ValueView::Counter64(c.out_mcast_pkts))
            &&& is_cell(e[12], x_column(13, index), ValueView::Counter64(c.out_bcast_pkts))
        }),
{
    lemma_columns(1, index);
    lemma_columns(2, index);
    lemma_columns(3, index);
    lemma_columns(4, index);
    lemma_columns(5, index);
    lemma_columns(6, index);
    lemma_columns(7, index);
    lemma_columns(8, index);
    lemma_columns(9, index);
    lemma_columns(10, index);
    lemma_columns(11, index);
    lemma_columns(12, index);
    lemma_columns(13, index);
}

/// The rest of an interface's row in the extended table: no link traps, the
/// speed in megabits, not promiscuous, a connector, the description, and when
/// the counters were cleared.
pub proof fn lemma_x_rest_columns(index: u32, iface: InterfaceState)
    ensures
        ({
            let e = crate::snmpsub::if_x_row_rest(index, iface);
            &&& e.len() == 6
            &&& is_cell(e[0], x_column(14, index), ValueView::Integer(2i32))
            &&& e[1].oid == x_column(15, index)
            &&& e[1].value matches ValueView::Gauge32(v) && v == (if iface.speed_mbps
                <= 0xffff_ffff {
                iface.speed_mbps as int
            } else {
                0xffff_ffff
            })
            &&& is_cell(e[2], x_column(16, index), ValueView::Integer(2i32))
            &&& is_cell(e[3], x_column(17, index), ValueView::Integer(1i32))
            &&& is_cell(
                e[4],
                x_column(18, index),
                ValueView::OctetString(vstd::utf8::encode_utf8(iface.description@)),
            )
            &&& e[5].oid == x_column(19, index)
            &&& e[5].value matches ValueView::TimeTicks(v) && v == hundredths(
                iface.seconds_since_clear,
            )
        }),
{
    lemma_columns(14, index);
    lemma_columns(15, index);
    lemma_columns(16, index);
    lemma_columns(17, index);
    lemma_columns(18, index);
    lemma_columns(19, index);
}

proof fn lemma_row_stays(rows: Seq<(u32, int)>, row: (u32, int))
    ensures
        crate::snmpsub::insert_row(rows, row).contains(row),
        forall|r: (u32, int)|
            rows.contains(r) ==> #[trigger] crate::snmpsub::insert_row(rows, row).contains(r),
        crate::snmpsub::insert_row(rows, row).len() == rows.len() + 1,
    decreases rows.len(),
{
    let all = crate::snmpsub::insert_row(rows, row);
    if rows.len() == 0 || rows.last().0 <= row.0 {
        assert(all[rows.len() as int] == row);
        assert forall|r: (u32, int)| rows.contains(r) implies #[trigger] all.contains(r) by {
            let i = choose|i: int| 0 <= i < rows.len() && rows[i] == r;
            assert(all[i] == r);
        }
    } else {
        lemma_row_stays(rows.drop_last(), row);
        let front = crate::snmpsub::insert_row(rows.drop_last(), row);
        let i = choose|i: int| 0 <= i < front.len() && front[i] == row;
        assert(all[i] == row);
        assert forall|r: (u32, int)| rows.contains(r) implies #[trigger] all.contains(r) by {
            let j = choose|j: int| 0 <= j < rows.len() && rows[j] == r;
            if j < rows.len() - 1 {
                assert(rows.drop_last()[j] == r);
                assert(rows.drop_last().contains(r));
                assert(front.contains(r));
                let k = choose|k: int| 0 <= k < front.len() && front[k] == r;
                assert(all[k] == r);
            } else {
                assert(all[front.len() as int] == r);
            }
        }
    }
}

proof fn lemma_rows_hold(interfaces: Seq<InterfaceState>, n: int, i: int)
    requires
        0 <= i < n <= interfaces.len(),
    ensures
        crate::snmpsub::index_of(
            interfaces[i].kind@,
            interfaces[i].name@,
            interfaces[i].index,
        ) matches Some(x) ==> crate::snmpsub::rows_of(interfaces, n).contains((x as u32, i)),
    decreases n,
{
    let iface = interfaces[n - 1];
    let front = crate::snmpsub::rows_of(interfaces, n - 1);
    if i < n - 1 {
        lemma_rows_hold(interfaces, n - 1, i);
    }
    if let Some(x) = crate::snmpsub::index_of(iface.kind@, iface.name@, iface.index) {
        lemma_row_stays(front, (x as u32, n - 1));
    }
}

proof fn lemma_entries_hold(
    interfaces: Seq<InterfaceState>,
    rows: Seq<(u32, int)>,
    n: int,
    k: int,
    e: EntryView,
)
    requires
        0 <= k < n <= rows.len(),
        crate::snmpsub::if_entries(rows[k].0, interfaces[rows[k].1]).contains(e),
    ensures
        crate::snmpsub::row_entries(interfaces, rows, n).contains(e),
    decreases n,
{
    let front = crate::snmpsub::row_entries(interfaces, rows, n - 1);
    let last = crate::snmpsub::if_entries(rows[n - 1].0, interfaces[rows[n - 1].1]);
    let all = crate::snmpsub::row_entries(interfaces, rows, n);
    assert(all == front + last);
    if k < n - 1 {
        lemma_entries_hold(interfaces, rows, n - 1, k, e);
        let i = choose|i: int| 0 <= i < front.len() && front[i] == e;
        assert(all[i] == e);
    } else {
        let i = choose|i: int| 0 <= i < last.len() && last[i] == e;
        assert(all[front.len() + i] == e);
    }
}

/// The counters that an interface shows: its own, or zeros where it has none.
pub open spec fn shown_counters(iface: InterfaceState) -> PortCounters {
    if iface.counters is Some {
        iface.counters->0
    } else {
        crate::interfaces::zero_counters()
    }
}

/// Every interface that has an index has all its cells in the MIB.
pub proof fn lemma_interfaces_have_rows(interfaces: Seq<InterfaceState>, i: int, index: int, c: int)
    requires
        0 <= i < interfaces.len(),
        crate::snmpsub::index_of(
            interfaces[i].kind@,
            interfaces[i].name@,
            interfaces[i].index,
        ) == Some(index),
    ensures
        ({
            let mib = crate::snmpsub::mib_of(interfaces);
            let x = index as u32;
            let shown = shown_counters(interfaces[i]);
            &&& 0 <= c < 9 ==> mib.contains(
                crate::snmpsub::if_row_identity(x, interfaces[i])[c],
            )
            &&& 0 <= c < 10 ==> mib.contains(crate::snmpsub::if_row_counters(x, shown)[c])
            &&& 0 <= c < 13 ==> mib.contains(
                crate::snmpsub::if_x_row_counters(x, interfaces[i].name@, shown)[c],
            )
            &&& 0 <= c < 6 ==> mib.contains(crate::snmpsub::if_x_row_rest(x, interfaces[i])[c])
        }),
{
    let x = index as u32;
    let iface = interfaces[i];
    let shown = shown_counters(iface);
    assert(shown == crate::snmpsub::counters_of(iface));
    let a = crate::snmpsub::if_row_identity(x, iface);
    let b = crate::snmpsub::if_row_counters(x, shown);
    let d = crate::snmpsub::if_x_row_counters(x, iface.name@, shown);
    let f = crate::snmpsub::if_x_row_rest(x, iface);
    let all = a + b + d + f;
    assert(a.len() == 9 && b.len() == 10 && d.len() == 13 && f.len() == 6);
    assert(crate::snmpsub::if_entries(x, iface) == all);
    if 0 <= c < 9 {
        assert(all[c] == a[c]);
        lemma_mib_holds(interfaces, i, index, a[c]);
    }
    if 0 <= c < 10 {
        assert(all[9 + c] == b[c]);
        lemma_mib_holds(interfaces, i, index, b[c]);
    }
    if 0 <= c < 13 {
        assert(all[19 + c] == d[c]);
        lemma_mib_holds(interfaces, i, index, d[c]);
    }
    if 0 <= c < 6 {
        assert(all[32 + c] == f[c]);
        lemma_mib_holds(interfaces, i, index, f[c]);
    }
}

proof fn lemma_mib_holds(interfaces: Seq<InterfaceState>, i: int, index: int, e: EntryView)
    requires
        0 <= i < interfaces.len(),
        crate::snmpsub::index_of(
            interfaces[i].kind@,
            interfaces[i].name@,
            interfaces[i].index,
        ) == Some(index),
        crate::snmpsub::if_entries(index as u32, interfaces[i]).contains(e),
    ensures
        crate::snmpsub::mib_of(interfaces).contains(e),
{
    let n = interfaces.len() as int;
    let rows = crate::snmpsub::rows_of(interfaces, n);
    lemma_rows_hold(interfaces, n, i);
    let k = choose|k: int| 0 <= k < rows.len() && rows[k] == (index as u32, i);
    assert(rows[k] == (index as u32, i));
    lemma_entries_hold(interfaces, rows, rows.len() as int, k, e);
    let body = crate::snmpsub::row_entries(interfaces, rows, rows.len() as int);
    let all = seq![crate::snmpsub::if_number(rows.len())] + body;
    let j = choose|j: int| 0 <= j < body.len() && body[j] == e;
    assert(all[j + 1] == e);
    crate::snmpsub::lemma_by_oid(all);
    let mib = crate::snmpsub::mib_of(interfaces);
    all.to_multiset_ensures();
    mib.to_multiset_ensures();
    assert(all.contains(e));
    assert(all.to_multiset().count(e) > 0);
    assert(mib.to_multiset().count(e) > 0);
}

// --------------------------------------------------------------- answers

/// A get answers with the object of that very name; where there is none, with
/// no such instance if another object stands beside it, else with no such
/// object.
pub proof fn lemma_gets_are_exact(mib: Seq<EntryView>, oid: Seq<u32>)
    ensures
        ({
            let b = crate::snmpsub::get_bind(mib, oid);
            let there = exists|i: int| 0 <= i < mib.len() && (#[trigger] mib[i]).oid == oid;
            let beside = oid.len() > 1 && exists|i: int|
                0 <= i < mib.len() && (#[trigger] mib[i]).oid.len() >= oid.len() - 1
                    && mib[i].oid.take(oid.len() - 1) == oid.drop_last();
            &&& b.name == oid
            &&& there ==> exists|i: int|
                0 <= i < mib.len() && (#[trigger] mib[i]).oid == oid && mib[i].value == b.value
            &&& !there && beside ==> b.value == ValueView::NoSuchInstance
            &&& !there && !beside ==> b.value == ValueView::NoSuchObject
        }),
{
    lemma_match(mib, crate::snmpsub::at_oid(oid));
    assert(crate::snmpsub::has_column(mib, oid) <==> oid.len() > 1 && exists|i: int|
        0 <= i < mib.len() && (#[trigger] mib[i]).oid.len() >= oid.len() - 1 && mib[i].oid.take(
            oid.len() - 1,
        ) == oid.drop_last()) by {
        if crate::snmpsub::has_column(mib, oid) {
            let i = choose|i: int|
                0 <= i < mib.len() && crate::snmpsub::oid_begins(
                    #[trigger] mib[i].oid,
                    oid.drop_last(),
                );
            assert(mib[i].oid.take(oid.len() - 1) == oid.drop_last());
        }
        if oid.len() > 1 && exists|i: int|
            0 <= i < mib.len() && (#[trigger] mib[i]).oid.len() >= oid.len() - 1
                && mib[i].oid.take(oid.len() - 1) == oid.drop_last() {
            let i = choose|i: int|
                0 <= i < mib.len() && (#[trigger] mib[i]).oid.len() >= oid.len() - 1
                    && mib[i].oid.take(oid.len() - 1) == oid.drop_last();
            assert(crate::snmpsub::oid_begins(mib[i].oid, oid.drop_last()));
        }
    }
}

proof fn lemma_match(mib: Seq<EntryView>, test: spec_fn(EntryView) -> bool)
    ensures
        match crate::snmpsub::first_match(mib, test) {
            Some(e) => exists|i: int|
                0 <= i < mib.len() && #[trigger] mib[i] == e && test(e) && forall|j: int|
                    0 <= j < i ==> !test(#[trigger] mib[j]),
            None => forall|j: int| 0 <= j < mib.len() ==> !test(#[trigger] mib[j]),
        },
    decreases mib.len(),
{
    if mib.len() > 0 {
        if test(mib[0]) {
            assert(mib[0] == crate::snmpsub::first_match(mib, test)->0);
        } else {
            let rest = mib.skip(1);
            lemma_match(rest, test);
            match crate::snmpsub::first_match(rest, test) {
                Some(e) => {
                    let i = choose|i: int|
                        0 <= i < rest.len() && #[trigger] rest[i] == e && test(e) && forall|j: int|
                            0 <= j < i ==> !test(#[trigger] rest[j]);
                    assert(mib[i + 1] == e);
                    assert forall|j: int| 0 <= j < i + 1 implies !test(#[trigger] mib[j]) by {
                        if j > 0 {
                            assert(rest[j - 1] == mib[j]);
                        }
                    }
                },
                None => {
                    assert forall|j: int| 0 <= j < mib.len() implies !test(#[trigger] mib[j]) by {
                        if j > 0 {
                            assert(rest[j - 1] == mib[j]);
                        }
                    }
                },
            }
        }
    }
}

/// Is a name one that a search looks for: behind its start, or at it where
/// the start is included, and before its end where it has one?
pub open spec fn wanted(range: RangeView, oid: Seq<u32>) -> bool {
    &&& smaller(range.start, oid) || (range.inclusive && oid == range.start)
    &&& range.end.len() > 0 ==> smaller(oid, range.end)
}

/// A search of names in order answers with the first that it looks for, and
/// with the end of the view where there is none.
pub proof fn lemma_searches_find_the_next(mib: Seq<EntryView>, range: RangeView)
    requires
        crate::snmpsub::in_order(mib),
    ensures
        ({
            let b = crate::snmpsub::next_bind(mib, range);
            let some = exists|i: int| 0 <= i < mib.len() && wanted(range, (#[trigger] mib[i]).oid);
            &&& !some ==> b.name == range.start && b.value == ValueView::EndOfMibView
            &&& some ==> {
                &&& wanted(range, b.name)
                &&& mib.contains(EntryView { oid: b.name, value: b.value })
                &&& forall|i: int|
                    0 <= i < mib.len() && wanted(range, (#[trigger] mib[i]).oid) ==> !smaller(
                        mib[i].oid,
                        b.name,
                    )
            }
        }),
{
    let test = crate::snmpsub::reached_by(range);
    lemma_match(mib, test);
    assert forall|i: int| 0 <= i < mib.len() implies test(#[trigger] mib[i]) == (smaller(
        range.start,
        mib[i].oid,
    ) || (range.inclusive && mib[i].oid == range.start)) by {
        lemma_identifiers_are_ordered(range.start, mib[i].oid);
        lemma_identifiers_are_ordered(mib[i].oid, range.start);
        crate::snmpsub::lemma_oid_total(range.start, mib[i].oid);
        crate::snmpsub::lemma_oid_irreflexive(range.start);
        if crate::snmpsub::oid_before(range.start, mib[i].oid) && crate::snmpsub::oid_before(
            mib[i].oid,
            range.start,
        ) {
            crate::snmpsub::lemma_oid_transitive(range.start, mib[i].oid, range.start);
        }
    }
    match crate::snmpsub::first_match(mib, test) {
        None => {},
        Some(e) => {
            let k = choose|k: int|
                0 <= k < mib.len() && #[trigger] mib[k] == e && test(e) && forall|j: int|
                    0 <= j < k ==> !test(#[trigger] mib[j]);
            assert(mib[k] == e);
            lemma_identifiers_are_ordered(e.oid, range.end);
            assert forall|i: int|
                0 <= i < mib.len() && wanted(range, (#[trigger] mib[i]).oid) implies !smaller(
                mib[i].oid,
                e.oid,
            ) && (range.end.len() > 0 ==> smaller(e.oid, range.end)) by {
                if i < k {
                    assert(!test(mib[i]));
                }
                lemma_identifiers_are_ordered(mib[i].oid, e.oid);
                lemma_identifiers_are_ordered(mib[i].oid, range.end);
                if i == k {
                    crate::snmpsub::lemma_oid_irreflexive(e.oid);
                } else {
                    assert(!crate::snmpsub::oid_before(mib[i].oid, mib[k].oid));
                }
                crate::snmpsub::lemma_oid_total(e.oid, mib[i].oid);
                if range.end.len() > 0 && crate::snmpsub::oid_before(e.oid, mib[i].oid) {
                    crate::snmpsub::lemma_oid_transitive(e.oid, mib[i].oid, range.end);
                }
            }
            if crate::snmpsub::next_entry(mib, range) is Some {
                assert(wanted(range, mib[k].oid));
                assert(mib.contains(EntryView { oid: e.oid, value: e.value }));
            }
        },
    }
}

/// Each search of a get, a get-next or the first ones of a bulk is answered on
/// its own, in order; other requests are answered with nothing.
pub proof fn lemma_searches_are_answered(
    mib: Seq<EntryView>,
    ranges: Seq<RangeView>,
    non_repeaters: u16,
    max_repetitions: u16,
    i: int,
)
    requires
        0 <= i < ranges.len(),
    ensures
        ({
            let get = crate::snmpsub::answer_view(
                mib,
                PduType::Get,
                ranges,
                non_repeaters,
                max_repetitions,
            );
            let next = crate::snmpsub::answer_view(
                mib,
                PduType::GetNext,
                ranges,
                non_repeaters,
                max_repetitions,
            );
            let bulk = crate::snmpsub::answer_view(
                mib,
                PduType::GetBulk,
                ranges,
                non_repeaters,
                max_repetitions,
            );
            &&& get.len() == ranges.len() && next.len() == ranges.len()
            &&& get[i] == crate::snmpsub::get_bind(mib, ranges[i].start)
            &&& next[i] == crate::snmpsub::next_bind(mib, ranges[i])
            &&& i < non_repeaters ==> bulk.len() > i && bulk[i] == next[i]
            &&& non_repeaters < ranges.len() ==> bulk.skip(non_repeaters as int)
                == crate::snmpsub::repeat(
                mib,
                ranges.skip(non_repeaters as int),
                max_repetitions as nat,
            )
            &&& non_repeaters >= ranges.len() ==> bulk.len() == ranges.len()
        }),
{
    let bulk = crate::snmpsub::answer_view(
        mib,
        PduType::GetBulk,
        ranges,
        non_repeaters,
        max_repetitions,
    );
    if non_repeaters < ranges.len() {
        assert(bulk.skip(non_repeaters as int) =~= crate::snmpsub::repeat(
            mib,
            ranges.skip(non_repeaters as int),
            max_repetitions as nat,
        ));
    } else {
        assert(ranges.skip(ranges.len() as int) =~= Seq::<RangeView>::empty());
        lemma_no_rounds(mib, max_repetitions as nat);
    }
}

proof fn lemma_no_rounds(mib: Seq<EntryView>, n: nat)
    ensures
        crate::snmpsub::repeat(mib, Seq::empty(), n).len() == 0,
{
}

/// A round of a bulk answers each search once and goes on behind what it
/// found; the rounds end with one that found nothing, or when as many were
/// made as were asked for.
pub proof fn lemma_rounds_go_on(
    mib: Seq<EntryView>,
    cursors: Seq<RangeView>,
    n: nat,
    i: int,
)
    requires
        0 <= i < cursors.len(),
    ensures
        crate::snmpsub::repeat(mib, cursors, 0).len() == 0,
        n > 0 ==> ({
            let all = crate::snmpsub::repeat(mib, cursors, n);
            let moved = crate::snmpsub::round_cursors(mib, cursors);
            let found = exists|k: int|
                0 <= k < cursors.len() && crate::snmpsub::next_entry(
                    mib,
                    #[trigger] cursors[k],
                ) is Some;
            &&& all.len() >= cursors.len()
            &&& all[i] == crate::snmpsub::next_bind(mib, cursors[i])
            &&& !found ==> all.len() == cursors.len()
            &&& found ==> all.skip(cursors.len() as int) == crate::snmpsub::repeat(
                mib,
                moved,
                (n - 1) as nat,
            )
            &&& moved.len() == cursors.len()
            &&& moved[i].end == cursors[i].end
            &&& crate::snmpsub::next_entry(mib, cursors[i]) is Some ==> moved[i].start
                == all[i].name && !moved[i].inclusive
            &&& crate::snmpsub::next_entry(mib, cursors[i]) is None ==> moved[i] == cursors[i]
                && all[i] == (BindView { name: cursors[i].start, value: ValueView::EndOfMibView })
        }),
{
    if n > 0 {
        let all = crate::snmpsub::repeat(mib, cursors, n);
        if crate::snmpsub::progressed(mib, cursors) {
            assert(all.skip(cursors.len() as int) =~= crate::snmpsub::repeat(
                mib,
                crate::snmpsub::round_cursors(mib, cursors),
                (n - 1) as nat,
            ));
        }
    }
}

// -------------------------------------------------------------- sessions

/// What is counted: a request that was read counts in and out and by its kind;
/// one that could not be read, and every attempt to write, counts as an error;
/// other messages do not count.
pub proof fn lemma_requests_are_counted(c: Counters, header: Header, payload: Seq<u8>)
    requires
        crate::snmpsub::can_count(c),
    ensures
        ({
            let r = crate::snmpsub::serving_counters(c, header, payload);
            let t = header.pdu_type;
            let reads = t == PduType::Get || t == PduType::GetNext || t == PduType::GetBulk;
            let read = reads && crate::snmpsub::decodes(header, payload);
            &&& r.packets_in == c.packets_in + (if read {
                1int
            } else {
                0
            })
            &&& r.packets_out == c.packets_out + (if read {
                1int
            } else {
                0
            })
            &&& r.get_requests == c.get_requests + (if read && t == PduType::Get {
                1int
            } else {
                0
            })
            &&& r.getnext_requests == c.getnext_requests + (if read && t != PduType::Get {
                1int
            } else {
                0
            })
            &&& r.errors == c.errors + (if (reads && !read) || t == PduType::TestSet {
                1int
            } else {
                0
            })
        }),
{
}

/// Every message but a response is answered, under the numbers that it came
/// with: a search with what was found, a write with not-writable at the first
/// binding, anything else with no error and nothing more.
pub proof fn lemma_messages_are_answered(
    mib: Seq<EntryView>,
    header: Header,
    payload: Seq<u8>,
)
    ensures
        ({
            let r = crate::snmpsub::serving_reply(mib, header, payload);
            let t = header.pdu_type;
            let reads = t == PduType::Get || t == PduType::GetNext || t == PduType::GetBulk;
            &&& r is None <==> t == PduType::Response
            &&& !reads && t != PduType::TestSet && t != PduType::Response ==> r == Some(
                answered(header, 0, 0, Seq::empty()),
            )
            &&& t == PduType::TestSet ==> r == Some(answered(header, 17, 1, Seq::empty()))
            &&& reads && !crate::snmpsub::decodes(header, payload) ==> r == Some(
                answered(header, 0, 0, Seq::empty()),
            )
            &&& reads && crate::snmpsub::decodes(header, payload) ==> {
                let (k, n, at) = crate::agentx::repeat_counts(t == PduType::GetBulk, payload)->0;
                r == Some(
                    answered(
                        header,
                        0,
                        0,
                        crate::snmpsub::answer_view(
                            mib,
                            t,
                            crate::agentx::ranges_at(payload, at)->0,
                            k,
                            n,
                        ),
                    ),
                )
            }
        }),
{
}

/// The response to a message.
pub open spec fn answered(
    header: Header,
    error: u16,
    index: u16,
    binds: Seq<BindView>,
) -> Seq<u8> {
    crate::agentx::frame_bytes(
        PduType::Response,
        header.session_id,
        header.transaction_id,
        header.packet_id,
        crate::agentx::response_payload(error, index, binds),
    )
}

/// A registration is refused by an error other than that the subtree is
/// registered already; a response too short to say so does not refuse.
pub proof fn lemma_registrations_are_refused(payload: Seq<u8>)
    ensures
        crate::snmpsub::registration_refused(payload) <==> payload.len() >= 6 && payload[4] * 256
            + payload[5] != 0 && payload[4] * 256 + payload[5] != 263,
{
}

} // verus!
