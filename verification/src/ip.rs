//! IP addresses and their text forms.

use vstd::prelude::*;

use crate::bytes::{push_be32, push_be64};
use crate::ordmap::Key;
use crate::text::{chars_of, decimal, find, parse_unsigned, split, text_of};

verus! {

/// An IPv4 address.
#[derive(Debug, Clone, Copy, PartialEq, Eq, PartialOrd, Ord, Hash, Structural)]
pub struct Ipv4 {
    pub bits: u32,
}

/// An IPv6 address, in two halves.
#[derive(Debug, Clone, Copy, PartialEq, Eq, PartialOrd, Ord, Hash, Structural)]
pub struct Ipv6 {
    pub hi: u64,
    pub lo: u64,
}

/// An address of either family.
#[derive(Debug, Clone, Copy, PartialEq, Eq, PartialOrd, Ord, Hash, Structural)]
pub enum IpAddr {
    V4(Ipv4),
    V6(Ipv6),
}

/// The order of addresses: IPv4 before IPv6, each by its number.
pub open spec fn ip_before(a: IpAddr, b: IpAddr) -> bool {
    match (a, b) {
        (IpAddr::V4(x), IpAddr::V4(y)) => x.bits < y.bits,
        (IpAddr::V4(_), IpAddr::V6(_)) => true,
        (IpAddr::V6(_), IpAddr::V4(_)) => false,
        (IpAddr::V6(x), IpAddr::V6(y)) => x.hi < y.hi || (x.hi == y.hi && x.lo < y.lo),
    }
}

impl View for IpAddr {
    type V = IpAddr;

    open spec fn view(&self) -> IpAddr {
        *self
    }
}

impl Key for IpAddr {
    open spec fn before(a: IpAddr, b: IpAddr) -> bool {
        ip_before(a, b)
    }

    proof fn lemma_irreflexive(a: IpAddr) {
    }

    proof fn lemma_transitive(a: IpAddr, b: IpAddr, c: IpAddr) {
    }

    proof fn lemma_total(a: IpAddr, b: IpAddr) {
    }

    fn is_before(&self, other: &Self) -> (r: bool) {
        match (*self, *other) {
            (IpAddr::V4(x), IpAddr::V4(y)) => x.bits < y.bits,
            (IpAddr::V4(_), IpAddr::V6(_)) => true,
            (IpAddr::V6(_), IpAddr::V4(_)) => false,
            (IpAddr::V6(x), IpAddr::V6(y)) => x.hi < y.hi || (x.hi == y.hi && x.lo < y.lo),
        }
    }

    fn is_same(&self, other: &Self) -> (r: bool) {
        *self == *other
    }
}

impl View for Ipv4 {
    type V = Ipv4;

    open spec fn view(&self) -> Ipv4 {
        *self
    }
}

impl Key for Ipv4 {
    open spec fn before(a: Ipv4, b: Ipv4) -> bool {
        a.bits < b.bits
    }

    proof fn lemma_irreflexive(a: Ipv4) {
    }

    proof fn lemma_transitive(a: Ipv4, b: Ipv4, c: Ipv4) {
    }

    proof fn lemma_total(a: Ipv4, b: Ipv4) {
    }

    fn is_before(&self, other: &Self) -> (r: bool) {
        self.bits < other.bits
    }

    fn is_same(&self, other: &Self) -> (r: bool) {
        self.bits == other.bits
    }
}

impl Ipv4 {
    /// 224.0.0.0/4
    pub open spec fn spec_multicast(self) -> bool {
        self.bits / 0x1000_0000 == 14
    }

    /// 169.254.0.0/16
    pub open spec fn spec_link_local(self) -> bool {
        self.bits / 0x1_0000 == 0xa9fe
    }

    pub fn new(a: u8, b: u8, c: u8, d: u8) -> (r: Ipv4)
        ensures
            r.bits == a * 0x100_0000 + b * 0x1_0000 + c * 0x100 + d,
    {
        Ipv4 {
            bits: a as u32 * 0x100_0000 + b as u32 * 0x1_0000 + c as u32 * 0x100 + d as u32,
        }
    }

    pub fn is_multicast(self) -> (r: bool)
        ensures
            r == self.spec_multicast(),
    {
        self.bits / 0x1000_0000 == 14
    }

    pub fn is_link_local(self) -> (r: bool)
        ensures
            r == self.spec_link_local(),
    {
        self.bits / 0x1_0000 == 0xa9fe
    }

    /// 0.0.0.0
    pub fn is_unspecified(self) -> (r: bool)
        ensures
            r == (self.bits == 0),
    {
        self.bits == 0
    }

    /// 127.0.0.0/8
    pub fn is_loopback(self) -> (r: bool)
        ensures
            r == (self.bits / 0x100_0000 == 127),
    {
        self.bits / 0x100_0000 == 127
    }

    /// 255.255.255.255
    pub fn is_broadcast(self) -> (r: bool)
        ensures
            r == (self.bits == 0xffff_ffff),
    {
        self.bits == 0xffff_ffff
    }

    /// Append the four bytes of the address.
    pub fn push_to(self, out: &mut Vec<u8>)
        ensures
            final(out)@ == old(out)@ + crate::bytes::be32(self.bits),
    {
        push_be32(out, self.bits);
    }

    /// The address in dotted form.
    pub fn shown(self) -> (r: String)
        ensures
            r@ == v4_text(self),
    {
        let mut r = decimal((self.bits / 0x100_0000) as u64);
        r.append(".");
        r.append(decimal((self.bits / 0x1_0000 % 0x100) as u64).as_str());
        r.append(".");
        r.append(decimal((self.bits / 0x100 % 0x100) as u64).as_str());
        r.append(".");
        r.append(decimal((self.bits % 0x100) as u64).as_str());
        r
    }
}

/// An IPv4 address in dotted form.
pub open spec fn v4_text(a: Ipv4) -> Seq<char> {
    crate::text::decimal_text((a.bits / 0x100_0000) as nat) + "."@ + crate::text::decimal_text(
        (a.bits / 0x1_0000 % 0x100) as nat,
    ) + "."@ + crate::text::decimal_text((a.bits / 0x100 % 0x100) as nat) + "."@
        + crate::text::decimal_text((a.bits % 0x100) as nat)
}

impl Ipv6 {
    /// ff00::/8
    pub open spec fn spec_multicast(self) -> bool {
        self.hi / 0x100_0000_0000_0000 == 0xff
    }

    /// fe80::/10
    pub open spec fn spec_link_local(self) -> bool {
        self.hi / 0x40_0000_0000_0000 == 0x3fa
    }

    pub fn is_multicast(self) -> (r: bool)
        ensures
            r == self.spec_multicast(),
    {
        self.hi / 0x100_0000_0000_0000 == 0xff
    }

    pub fn is_link_local(self) -> (r: bool)
        ensures
            r == self.spec_link_local(),
    {
        self.hi / 0x40_0000_0000_0000 == 0x3fa
    }

    /// Append the sixteen bytes of the address.
    pub fn push_to(self, out: &mut Vec<u8>)
        ensures
            final(out)@ == old(out)@ + v6_bytes(self),
    {
        let ghost before = out@;
        push_be64(out, self.hi);
        push_be64(out, self.lo);
        assert(out@ =~= before + v6_bytes(self));
    }
}

/// The sixteen bytes of an IPv6 address.
pub open spec fn v6_bytes(a: Ipv6) -> Seq<u8> {
    crate::bytes::be64(a.hi) + crate::bytes::be64(a.lo)
}

// ------------------------------------------------------------- text forms

/// An octet of a dotted address: one to three digits, no needless zero in
/// front, at most 255.
pub open spec fn octet_value(s: Seq<char>) -> Option<int> {
    if 1 <= s.len() <= 3 && s[0] != '+' && !(s.len() > 1 && s[0] == '0') {
        crate::text::unsigned_upto(s, 10, 255)
    } else {
        None
    }
}

/// The address that a dotted text stands for.
pub open spec fn v4_value(s: Seq<char>) -> Option<Ipv4> {
    let p = crate::text::split_text(s, '.');
    if p.len() == 4 && octet_value(p[0]) is Some && octet_value(p[1]) is Some && octet_value(p[2])
        is Some && octet_value(p[3]) is Some {
        Some(
            Ipv4 {
                bits: (octet_value(p[0])->0 * 0x100_0000 + octet_value(p[1])->0 * 0x1_0000
                    + octet_value(p[2])->0 * 0x100 + octet_value(p[3])->0) as u32,
            },
        )
    } else {
        None
    }
}

fn parse_octet(s: &str) -> (r: Option<u8>)
    ensures
        match r {
            Some(v) => octet_value(s@) == Some(v as int),
            None => octet_value(s@) is None,
        },
{
    let chars = chars_of(s);
    let len: usize = chars.len();
    if len == 0 || len > 3 || chars[0] == '+' || (len > 1 && chars[0] == '0') {
        return None;
    }
    assert(chars@.subrange(0, len as int) =~= s@);
    match parse_unsigned(chars.as_slice(), 0, len, 10, 255) {
        Some(v) => Some(v as u8),
        None => None,
    }
}

/// Read a dotted IPv4 address.
pub fn parse_v4(s: &str) -> (r: Option<Ipv4>)
    ensures
        r == v4_value(s@),
{
    let parts = split(s, '.');
    let ghost p = parts.deep_view();
    assert(p.len() == parts@.len());
    if parts.len() != 4 {
        return None;
    }
    assert(p[0] == parts@[0]@ && p[1] == parts@[1]@ && p[2] == parts@[2]@ && p[3] == parts@[3]@);
    match (
        parse_octet(parts[0].as_str()),
        parse_octet(parts[1].as_str()),
        parse_octet(parts[2].as_str()),
        parse_octet(parts[3].as_str()),
    ) {
        (Some(a), Some(b), Some(c), Some(d)) => Some(Ipv4::new(a, b, c, d)),
        _ => None,
    }
}

/// A group of an IPv6 text: one to four hexadecimal digits.
pub open spec fn group_value(s: Seq<char>) -> Option<int> {
    if 1 <= s.len() <= 4 && s[0] != '+' {
        crate::text::unsigned_upto(s, 16, 0xffff)
    } else {
        None
    }
}

/// The first `n` pieces as groups; none if one of them is no group.
pub open spec fn group_list(pieces: Seq<Seq<char>>, n: int) -> Option<Seq<u16>>
    decreases n,
{
    if n <= 0 {
        Some(Seq::empty())
    } else {
        match (group_list(pieces, n - 1), group_value(pieces[n - 1])) {
            (Some(front), Some(v)) => Some(front.push(v as u16)),
            _ => None,
        }
    }
}

/// The groups between colons. Where `dotted` allows it the last piece may
/// be an IPv4 address, which makes two groups.
pub open spec fn side_groups(s: Seq<char>, dotted: bool) -> Option<Seq<u16>> {
    let pieces = crate::text::split_text(s, ':');
    if s.len() == 0 {
        Some(Seq::empty())
    } else if dotted && v4_value(pieces.last()) is Some {
        match group_list(pieces, pieces.len() - 1) {
            Some(front) => Some(
                front.push((v4_value(pieces.last())->0.bits / 0x1_0000) as u16).push(
                    (v4_value(pieces.last())->0.bits % 0x1_0000) as u16,
                ),
            ),
            None => None,
        }
    } else {
        group_list(pieces, pieces.len() as int)
    }
}

/// The eight groups of an IPv6 text. A double colon stands for one or more
/// zero groups.
pub open spec fn v6_groups(s: Seq<char>) -> Option<Seq<u16>> {
    match crate::text::find_from(s, "::"@, 0) {
        None => match side_groups(s, true) {
            Some(g) => if g.len() == 8 {
                Some(g)
            } else {
                None
            },
            None => None,
        },
        Some(i) => match (side_groups(s.take(i), false), side_groups(s.skip(i + 2), true)) {
            (Some(a), Some(b)) => if a.len() + b.len() <= 7 {
                Some(a + Seq::new((8 - a.len() - b.len()) as nat, |k: int| 0u16) + b)
            } else {
                None
            },
            _ => None,
        },
    }
}

/// Four groups as one number.
pub open spec fn groups_half(g: Seq<u16>, at: int) -> u64 {
    (g[at] * 0x1_0000_0000_0000 + g[at + 1] * 0x1_0000_0000 + g[at + 2] * 0x1_0000 + g[at
        + 3]) as u64
}

/// The address that an IPv6 text stands for.
pub open spec fn v6_value(s: Seq<char>) -> Option<Ipv6> {
    match v6_groups(s) {
        Some(g) => Some(Ipv6 { hi: groups_half(g, 0), lo: groups_half(g, 4) }),
        None => None,
    }
}

/// The address that a text stands for.
pub open spec fn ip_value(s: Seq<char>) -> Option<IpAddr> {
    match v4_value(s) {
        Some(a) => Some(IpAddr::V4(a)),
        None => match v6_value(s) {
            Some(a) => Some(IpAddr::V6(a)),
            None => None,
        },
    }
}

fn parse_group(s: &str) -> (r: Option<u16>)
    ensures
        match r {
            Some(v) => group_value(s@) == Some(v as int),
            None => group_value(s@) is None,
        },
{
    let chars = chars_of(s);
    let len: usize = chars.len();
    if len == 0 || len > 4 || chars[0] == '+' {
        return None;
    }
    assert(chars@.subrange(0, len as int) =~= s@);
    match parse_unsigned(chars.as_slice(), 0, len, 16, 0xffff) {
        Some(v) => Some(v as u16),
        None => None,
    }
}

proof fn lemma_group_list_none(pieces: Seq<Seq<char>>, n: int, m: int)
    requires
        0 <= n <= m,
        group_list(pieces, n) is None,
    ensures
        group_list(pieces, m) is None,
    decreases m - n,
{
    if n < m {
        lemma_group_list_none(pieces, n, m - 1);
    }
}

fn parse_groups(pieces: &Vec<String>, n: usize) -> (r: Option<Vec<u16>>)
    requires
        n <= pieces@.len(),
    ensures
        match r {
            Some(g) => group_list(pieces.deep_view(), n as int) == Some(g@),
            None => group_list(pieces.deep_view(), n as int) is None,
        },
{
    let ghost all = pieces.deep_view();
    let mut g: Vec<u16> = Vec::new();
    let mut i: usize = 0;
    assert(g@ =~= Seq::<u16>::empty());
    while i < n
        invariant
            i <= n <= pieces@.len(),
            all == pieces.deep_view(),
            group_list(all, i as int) == Some(g@),
        decreases n - i,
    {
        assert(all[i as int] == pieces@[i as int]@);
        match parse_group(pieces[i].as_str()) {
            Some(v) => g.push(v),
            None => {
                proof {
                    lemma_group_list_none(all, i + 1, n as int);
                }
                return None;
            },
        }
        i = i + 1;
    }
    Some(g)
}

fn parse_side(s: &str, dotted: bool) -> (r: Option<Vec<u16>>)
    ensures
        match r {
            Some(g) => side_groups(s@, dotted) == Some(g@),
            None => side_groups(s@, dotted) is None,
        },
{
    if s.is_empty() {
        let none: Vec<u16> = Vec::new();
        assert(none@ =~= Seq::<u16>::empty());
        return Some(none);
    }
    let pieces = split(s, ':');
    let ghost all = pieces.deep_view();
    let len: usize = pieces.len();
    assert(all.len() == len && all.last() == pieces@[len - 1]@);
    if dotted {
        match parse_v4(pieces[len - 1].as_str()) {
            Some(a) => {
                return match parse_groups(&pieces, len - 1) {
                    Some(front) => {
                        let mut g = front;
                        g.push((a.bits / 0x1_0000) as u16);
                        g.push((a.bits % 0x1_0000) as u16);
                        Some(g)
                    },
                    None => None,
                };
            },
            None => {},
        }
    }
    parse_groups(&pieces, len)
}

fn half_of(g: &Vec<u16>, at: usize) -> (r: u64)
    requires
        at + 4 <= g.len(),
    ensures
        r == groups_half(g@, at as int),
{
    g[at] as u64 * 0x1_0000_0000_0000 + g[at + 1] as u64 * 0x1_0000_0000 + g[at + 2] as u64
        * 0x1_0000 + g[at + 3] as u64
}

/// Read an IPv6 address.
pub fn parse_v6(s: &str) -> (r: Option<Ipv6>)
    ensures
        r == v6_value(s@),
{
    let chars = chars_of(s);
    let gap = chars_of("::");
    proof {
        reveal_strlit("::");
    }
    assert(gap@.len() == 2);
    match find(chars.as_slice(), gap.as_slice(), 0) {
        None => match parse_side(s, true) {
            Some(g) => if g.len() == 8 {
                Some(Ipv6 { hi: half_of(&g, 0), lo: half_of(&g, 4) })
            } else {
                None
            },
            None => None,
        },
        Some(i) => {
            let front = text_of(chars.as_slice(), 0, i);
            let back = text_of(chars.as_slice(), i + 2, chars.len());
            assert(front@ =~= s@.take(i as int));
            assert(back@ =~= s@.skip(i + 2));
            match (parse_side(front.as_str(), false), parse_side(back.as_str(), true)) {
                (Some(a), Some(b)) => {
                    if a.len() > 7 || b.len() > 7 || a.len() + b.len() > 7 {
                        return None;
                    }
                    let ghost whole = a@ + Seq::new((8 - a@.len() - b@.len()) as nat, |k: int| 0u16)
                        + b@;
                    let mut g: Vec<u16> = Vec::new();
                    let mut k: usize = 0;
                    while k < 8
                        invariant
                            k <= 8,
                            a@.len() + b@.len() <= 7,
                            whole == a@ + Seq::new(
                                (8 - a@.len() - b@.len()) as nat,
                                |k: int| 0u16,
                            ) + b@,
                            g@ == whole.take(k as int),
                        decreases 8 - k,
                    {
                        let v: u16 = if k < a.len() {
                            a[k]
                        } else if k < 8 - b.len() {
                            0
                        } else {
                            b[k - (8 - b.len())]
                        };
                        assert(v == whole[k as int]);
                        g.push(v);
                        assert(whole.take(k + 1) =~= whole.take(k as int).push(whole[k as int]));
                        k = k + 1;
                    }
                    assert(whole.take(8) =~= whole);
                    Some(Ipv6 { hi: half_of(&g, 0), lo: half_of(&g, 4) })
                },
                _ => None,
            }
        },
    }
}

/// Read an address of either family.
pub fn parse_ip(s: &str) -> (r: Option<IpAddr>)
    ensures
        r == ip_value(s@),
{
    match parse_v4(s) {
        Some(a) => Some(IpAddr::V4(a)),
        None => match parse_v6(s) {
            Some(a) => Some(IpAddr::V6(a)),
            None => None,
        },
    }
}

} // verus!
