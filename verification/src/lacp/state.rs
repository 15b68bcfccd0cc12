//! IEEE 802.1AX actor/partner state bits.

use vstd::prelude::*;

verus! {

pub const ACTIVITY: u8 = 0x01;

pub const TIMEOUT: u8 = 0x02;

pub const AGGREGATION: u8 = 0x04;

pub const SYNC: u8 = 0x08;

pub const COLLECTING: u8 = 0x10;

pub const DISTRIBUTING: u8 = 0x20;

pub const DEFAULTED: u8 = 0x40;

pub const EXPIRED: u8 = 0x80;

/// Is a bit of a state octet set? `bit` is one of the constants above.
pub open spec fn has(octet: u8, bit: u8) -> bool {
    octet / bit % 2 == 1
}

/// Is a bit of a state octet set?
pub fn has_bit(octet: u8, bit: u8) -> (r: bool)
    requires
        bit > 0,
    ensures
        r == has(octet, bit),
{
    octet / bit % 2 == 1
}

} // verus!
