//! Interface state, as syncd reports it.

use vstd::prelude::*;

use crate::text::{chars_of, parse_unsigned};

verus! {

/// Administrative state of an interface.
#[derive(Debug, Clone, Copy, PartialEq, Eq, Structural)]
pub enum AdminState {
    Unspecified,
    Up,
    Down,
}

/// Operational state of an interface.
#[derive(Debug, Clone, Copy, PartialEq, Eq, Structural)]
pub enum OperStatus {
    Unspecified,
    Up,
    Down,
}

/// The hardware counters of an interface.
#[derive(Debug, Clone, Copy, PartialEq, Eq, Structural)]
pub struct PortCounters {
    pub in_octets: u64,
    pub in_ucast_pkts: u64,
    pub in_mcast_pkts: u64,
    pub in_bcast_pkts: u64,
    pub in_discards: u64,
    pub in_errors: u64,
    pub out_octets: u64,
    pub out_ucast_pkts: u64,
    pub out_mcast_pkts: u64,
    pub out_bcast_pkts: u64,
    pub out_discards: u64,
    pub out_errors: u64,
}

/// Counters that never counted anything.
pub open spec fn zero_counters() -> PortCounters {
    PortCounters {
        in_octets: 0,
        in_ucast_pkts: 0,
        in_mcast_pkts: 0,
        in_bcast_pkts: 0,
        in_discards: 0,
        in_errors: 0,
        out_octets: 0,
        out_ucast_pkts: 0,
        out_mcast_pkts: 0,
        out_bcast_pkts: 0,
        out_discards: 0,
        out_errors: 0,
    }
}

impl Default for PortCounters {
    fn default() -> (r: Self)
        ensures
            r == zero_counters(),
    {
        PortCounters {
            in_octets: 0,
            in_ucast_pkts: 0,
            in_mcast_pkts: 0,
            in_bcast_pkts: 0,
            in_discards: 0,
            in_errors: 0,
            out_octets: 0,
            out_ucast_pkts: 0,
            out_mcast_pkts: 0,
            out_bcast_pkts: 0,
            out_discards: 0,
            out_errors: 0,
        }
    }
}

/// One interface: a front-panel port, a Port-Channel, a VLAN interface or
/// the management port.
#[derive(Debug)]
pub struct InterfaceState {
    pub name: String,
    /// `ethernet`, `port-channel`, `vlan`, `management`, ...
    pub kind: String,
    /// Front-panel index of the platform manifest; 0 where there is none.
    pub index: u32,
    pub admin_state: AdminState,
    pub oper_status: OperStatus,
    pub mac: String,
    pub mtu: u32,
    pub speed_mbps: u64,
    pub description: String,
    pub seconds_since_change: Option<u64>,
    pub seconds_since_clear: Option<u64>,
    pub counters: Option<PortCounters>,
    /// Interface addresses as `address/length`.
    pub ip_addresses: Vec<String>,
    pub switchport_mode: String,
    pub native_vlan: u32,
    pub access_vlan: u32,
    pub trunk_vlans: Vec<u32>,
    /// Member ports of a Port-Channel.
    pub members: Vec<String>,
}

/// A decimal digit.
pub open spec fn is_digit(c: char) -> bool {
    '0' <= c <= '9'
}

/// A text from its first digit on.
pub open spec fn from_digit(s: Seq<char>) -> Seq<char>
    decreases s.len(),
{
    if s.len() == 0 || is_digit(s[0]) {
        s
    } else {
        from_digit(s.skip(1))
    }
}

/// The digits that a text begins with.
pub open spec fn leading_digits(s: Seq<char>) -> Seq<char>
    decreases s.len(),
{
    if s.len() == 0 || !is_digit(s[0]) {
        Seq::empty()
    } else {
        seq![s[0]] + leading_digits(s.skip(1))
    }
}

/// The port number encoded in a display name (`Ethernet49` -> 49): its
/// first run of digits, 0 where there is none or it is no port number.
pub open spec fn port_number(name: Seq<char>) -> u16 {
    match crate::text::unsigned_upto(leading_digits(from_digit(name)), 10, 0xffff) {
        Some(n) => n as u16,
        None => 0,
    }
}

/// The port number encoded in a display name.
pub fn port_number_of(name: &str) -> (r: u16)
    ensures
        r == port_number(name@),
{
    let chars = chars_of(name);
    let mut from: usize = 0;
    let len: usize = chars.len();
    assert(chars@.skip(0) =~= chars@);
    while from < len && !('0' <= chars[from] && chars[from] <= '9')
        invariant
            len == chars@.len(),
            from <= len,
            from_digit(chars@) == from_digit(chars@.skip(from as int)),
        decreases len - from,
    {
        assert(chars@.skip(from as int).skip(1) =~= chars@.skip(from + 1));
        from = from + 1;
    }
    let ghost tail = chars@.skip(from as int);
    assert(from_digit(chars@) == tail);
    let mut to: usize = from;
    assert(chars@.subrange(from as int, from as int) + leading_digits(tail) =~= leading_digits(
        tail,
    ));
    while to < len && '0' <= chars[to] && chars[to] <= '9'
        invariant
            len == chars@.len(),
            from <= to <= len,
            tail == chars@.skip(from as int),
            leading_digits(tail) == chars@.subrange(from as int, to as int) + leading_digits(
                chars@.skip(to as int),
            ),
        decreases len - to,
    {
        let ghost rest = chars@.skip(to as int);
        assert(rest.skip(1) =~= chars@.skip(to + 1));
        assert(chars@.subrange(from as int, to as int) + (seq![rest[0]] + leading_digits(
            rest.skip(1),
        )) =~= chars@.subrange(from as int, to + 1) + leading_digits(rest.skip(1)));
        to = to + 1;
    }
    assert(leading_digits(chars@.skip(to as int)) =~= Seq::<char>::empty());
    assert(leading_digits(tail) =~= chars@.subrange(from as int, to as int));
    match parse_unsigned(chars.as_slice(), from, to, 10, 0xffff) {
        Some(n) => n as u16,
        None => 0,
    }
}

} // verus!
