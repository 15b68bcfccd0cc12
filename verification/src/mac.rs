//! MAC addresses as text.

use vstd::prelude::*;

use crate::text::{digit, parse_hex, split};

verus! {

/// The bytes of an address in two lowercase hex digits each, with colons
/// between them.
pub open spec fn mac_chars(mac: Seq<u8>) -> Seq<char> {
    Seq::new(
        if mac.len() == 0 {
            0
        } else {
            (3 * mac.len() - 1) as nat
        },
        |i: int|
            if i % 3 == 2 {
                ':'
            } else if i % 3 == 0 {
                crate::text::digit_char(mac[i / 3] as int / 16)
            } else {
                crate::text::digit_char(mac[i / 3] as int % 16)
            },
    )
}

/// Render an address.
pub fn mac_text(bytes: &[u8]) -> (s: String)
    requires
        3 * bytes@.len() <= usize::MAX,
    ensures
        s@ == mac_chars(bytes@),
{
    let mut s = String::new();
    let mut i: usize = 0;
    assert(s@ =~= mac_chars(bytes@.take(0)));
    while i < bytes.len()
        invariant
            i <= bytes@.len(),
            s@ == mac_chars(bytes@.take(i as int)),
        decreases bytes@.len() - i,
    {
        if i > 0 {
            s.push(':');
        }
        s.push(digit(bytes[i] / 16));
        s.push(digit(bytes[i] % 16));
        i = i + 1;
        assert(s@ =~= mac_chars(bytes@.take(i as int)));
    }
    assert(bytes@.take(i as int) =~= bytes@);
    s
}

/// Two addresses of one length are the same where their texts are.
pub proof fn lemma_mac_chars_injective(a: Seq<u8>, b: Seq<u8>)
    requires
        a.len() == b.len(),
        mac_chars(a) == mac_chars(b),
    ensures
        a == b,
{
    assert forall|i: int| 0 <= i < a.len() implies a[i] == b[i] by {
        assert(mac_chars(a)[3 * i] == mac_chars(b)[3 * i]);
        assert(mac_chars(a)[3 * i + 1] == mac_chars(b)[3 * i + 1]);
        assert((3 * i) / 3 == i && (3 * i) % 3 == 0);
        assert((3 * i + 1) / 3 == i && (3 * i + 1) % 3 == 1);
        assert(mac_chars(a)[3 * i] == crate::text::digit_char(a[i] as int / 16));
        assert(mac_chars(b)[3 * i] == crate::text::digit_char(b[i] as int / 16));
        assert(mac_chars(a)[3 * i + 1] == crate::text::digit_char(a[i] as int % 16));
        assert(mac_chars(b)[3 * i + 1] == crate::text::digit_char(b[i] as int % 16));
        lemma_digit_char_injective(a[i] as int / 16, b[i] as int / 16);
        lemma_digit_char_injective(a[i] as int % 16, b[i] as int % 16);
    }
    assert(a =~= b);
}

proof fn lemma_digit_char_injective(a: int, b: int)
    requires
        0 <= a < 16,
        0 <= b < 16,
        crate::text::digit_char(a) == crate::text::digit_char(b),
    ensures
        a == b,
{
}

/// The byte that one part of an address stands for.
pub open spec fn part_value(part: Seq<char>) -> Option<int> {
    crate::text::unsigned_upto(part, 16, 255)
}

/// The address that a text stands for: six hexadecimal bytes with colons
/// between them.
pub open spec fn mac_value(text: Seq<char>) -> Option<Seq<u8>> {
    let p = crate::text::split_text(text, ':');
    if p.len() == 6 && (forall|i: int| 0 <= i < 6 ==> part_value(#[trigger] p[i]) is Some) {
        Some(Seq::new(6, |i: int| part_value(p[i])->0 as u8))
    } else {
        None
    }
}

/// The view of an optional address.
pub open spec fn mac_view(mac: Option<[u8; 6]>) -> Option<Seq<u8>> {
    match mac {
        Some(m) => Some(m@),
        None => None,
    }
}

fn parse_part(part: &str) -> (r: Option<u8>)
    ensures
        match r {
            Some(v) => part_value(part@) == Some(v as int),
            None => part_value(part@) is None,
        },
{
    match parse_hex(part, 255) {
        Some(v) => Some(v as u8),
        None => None,
    }
}

/// Read an address.
pub fn parse_mac(text: &str) -> (r: Option<[u8; 6]>)
    ensures
        mac_view(r) == mac_value(text@),
{
    let parts = split(text, ':');
    let ghost p = parts.deep_view();
    assert(p.len() == parts@.len());
    if parts.len() != 6 {
        return None;
    }
    assert(p[0] == parts@[0]@ && p[1] == parts@[1]@ && p[2] == parts@[2]@ && p[3] == parts@[3]@
        && p[4] == parts@[4]@ && p[5] == parts@[5]@);
    match (
        parse_part(&parts[0]),
        parse_part(&parts[1]),
        parse_part(&parts[2]),
        parse_part(&parts[3]),
        parse_part(&parts[4]),
        parse_part(&parts[5]),
    ) {
        (Some(a), Some(b), Some(c), Some(d), Some(e), Some(f)) => {
            let mac = [a, b, c, d, e, f];
            assert(mac@ =~= Seq::new(6, |i: int| part_value(p[i])->0 as u8));
            Some(mac)
        },
        _ => None,
    }
}

proof fn lemma_byte_reads(b: u8)
    ensures
        part_value(
            seq![crate::text::digit_char(b as int / 16), crate::text::digit_char(b as int % 16)],
        ) == Some(b as int),
{
    let h = crate::text::digit_char(b as int / 16);
    let l = crate::text::digit_char(b as int % 16);
    let s = seq![h, l];
    assert(s.drop_last() =~= seq![h]);
    assert(seq![h].drop_last() =~= Seq::empty());
    assert(crate::text::digit_value(h, 16) == Some(b as int / 16));
    assert(crate::text::digit_value(l, 16) == Some(b as int % 16));
    reveal_with_fuel(crate::text::digits_value, 4);
    assert(crate::text::digits_value(s, 16) == Some(b as int));
}

proof fn lemma_mac_pieces(mac: Seq<u8>, n: int)
    requires
        0 < n <= mac.len(),
    ensures
        crate::text::split_text(mac_chars(mac.take(n)), ':') == Seq::new(
            n as nat,
            |i: int|
                seq![
                    crate::text::digit_char(mac[i] as int / 16),
                    crate::text::digit_char(mac[i] as int % 16),
                ],
        ),
    decreases n,
{
    let at = crate::text::is_char(':');
    let h = crate::text::digit_char(mac[n - 1] as int / 16);
    let l = crate::text::digit_char(mac[n - 1] as int % 16);
    let goal = Seq::new(
        n as nat,
        |i: int|
            seq![
                crate::text::digit_char(mac[i] as int / 16),
                crate::text::digit_char(mac[i] as int % 16),
            ],
    );
    let pair = seq![h, l];
    assert forall|j: int| 0 <= j < pair.len() implies !at(#[trigger] pair[j]) by {
        assert(h != ':' && l != ':');
    }
    if n == 1 {
        assert(mac_chars(mac.take(n)) =~= Seq::<char>::empty() + pair);
        crate::text::lemma_pieces_append(Seq::empty(), pair, at);
        assert(Seq::<char>::empty() + pair =~= pair);
        assert(crate::text::pieces(Seq::empty(), at).drop_last() =~= Seq::empty());
        assert(crate::text::split_text(mac_chars(mac.take(n)), ':') =~= goal);
    } else {
        lemma_mac_pieces(mac, n - 1);
        let front = mac_chars(mac.take(n - 1)) + seq![':'];
        assert(mac_chars(mac.take(n)) =~= front + pair);
        assert(front.drop_last() =~= mac_chars(mac.take(n - 1)));
        assert(front.last() == ':');
        let before = crate::text::split_text(mac_chars(mac.take(n - 1)), ':');
        assert(crate::text::pieces(front, at) == before.push(Seq::empty()));
        crate::text::lemma_pieces_append(front, pair, at);
        assert(before.push(Seq::empty()).drop_last() =~= before);
        assert(Seq::<char>::empty() + pair =~= pair);
        assert(crate::text::split_text(mac_chars(mac.take(n)), ':') =~= goal);
    }
}

/// Reading an address that was rendered gives the address.
pub proof fn lemma_mac_reads_back(mac: Seq<u8>)
    requires
        mac.len() == 6,
    ensures
        mac_value(mac_chars(mac)) == Some(mac),
{
    assert(mac.take(6) =~= mac);
    lemma_mac_pieces(mac, 6);
    let p = crate::text::split_text(mac_chars(mac), ':');
    assert forall|i: int| 0 <= i < 6 implies part_value(#[trigger] p[i]) == Some(mac[i] as int) by {
        lemma_byte_reads(mac[i]);
    }
    assert(Seq::new(6, |i: int| part_value(p[i])->0 as u8) =~= mac);
}

} // verus!
