//! The RFC 1071 one's-complement checksum.

use vstd::prelude::*;

use crate::bytes::read16;

verus! {

/// The sum of the 16-bit words of some bytes; an odd last byte is the high
/// half of a word.
pub open spec fn word_sum(b: Seq<u8>) -> int
    decreases b.len(),
{
    if b.len() == 0 {
        0
    } else if b.len() == 1 {
        b[0] * 0x100
    } else {
        crate::bytes::word16(b, 0) + word_sum(b.skip(2))
    }
}

/// A sum carried round to 16 bits: the one's-complement sum.
pub open spec fn carried(sum: int) -> int {
    if sum <= 0 {
        0
    } else {
        (sum - 1) % 0xffff + 1
    }
}

/// The RFC 1071 one's-complement checksum of some bytes.
pub open spec fn checksum(b: Seq<u8>) -> int {
    0xffff - carried(word_sum(b))
}

/// The RFC 1071 one's-complement checksum of an IPv4 header.
pub fn ip_checksum(header: &[u8]) -> (r: u16)
    requires
        word_sum(header@) <= u32::MAX,
    ensures
        r == checksum(header@),
{
    let mut sum: u32 = 0;
    let mut i: usize = 0;
    let len: usize = header.len();
    assert(header@.skip(0) =~= header@);
    while i < len
        invariant
            len == header@.len(),
            word_sum(header@) <= u32::MAX,
            i <= len,
            sum + word_sum(header@.skip(i as int)) == word_sum(header@),
            i < len ==> i % 2 == 0,
        decreases len - i,
    {
        let ghost rest = header@.skip(i as int);
        if len - i >= 2 {
            assert(rest.skip(2) =~= header@.skip(i + 2));
            assert(crate::bytes::word16(rest, 0) == crate::bytes::word16(header@, i as int));
            proof {
                lemma_word_sum_nonneg(rest.skip(2));
            }
            sum = sum + read16(header, i) as u32;
            i = i + 2;
        } else {
            sum = sum + header[i] as u32 * 0x100;
            i = i + 1;
            assert(header@.skip(i as int) =~= Seq::<u8>::empty());
        }
    }
    let ghost total = word_sum(header@);
    while sum >= 0x1_0000
        invariant
            carried(sum as int) == carried(total),
        decreases sum,
    {
        proof {
            lemma_carry(sum as int);
        }
        sum = sum % 0x1_0000 + sum / 0x1_0000;
    }
    0xffff - sum as u16
}

/// Adding the carry back in does not change the one's-complement sum.
proof fn lemma_carry(sum: int)
    requires
        sum >= 0x1_0000,
    ensures
        carried(sum % 0x1_0000 + sum / 0x1_0000) == carried(sum),
{
    let next = sum % 0x1_0000 + sum / 0x1_0000;
    let k = sum / 0x1_0000;
    assert(next == sum - 0xffff * k);
    assert(k >= 1);
    assert((next - 1) % 0xffff == (sum - 1) % 0xffff) by {
        vstd::arithmetic::div_mod::lemma_mod_multiples_vanish(k, next - 1, 0xffff);
    }
}

proof fn lemma_word_sum_split(a: Seq<u8>, b: Seq<u8>)
    requires
        a.len() % 2 == 0,
    ensures
        word_sum(a + b) == word_sum(a) + word_sum(b),
    decreases a.len(),
{
    if a.len() == 0 {
        assert(a + b =~= b);
    } else {
        assert((a + b).skip(2) =~= a.skip(2) + b);
        assert(crate::bytes::word16(a + b, 0) == crate::bytes::word16(a, 0));
        lemma_word_sum_split(a.skip(2), b);
    }
}

/// A header with its checksum filled in sums to zero: with the checksum of
/// the header that has zeros in its place, the checksum of the whole is 0.
pub proof fn lemma_checksum_closes(front: Seq<u8>, back: Seq<u8>)
    requires
        front.len() % 2 == 0,
    ensures
        0 <= checksum(front + crate::bytes::be16(0) + back) <= 0xffff,
        checksum(front + crate::bytes::be16(checksum(front + crate::bytes::be16(0) + back) as u16) + back) == 0,
{
    let open = front + crate::bytes::be16(0) + back;
    let c = checksum(open) as u16;
    let full = front + crate::bytes::be16(c) + back;
    lemma_word_sum_two(0);
    lemma_word_sum_two(c);
    lemma_word_sum_split(front, crate::bytes::be16(0));
    lemma_word_sum_split(front + crate::bytes::be16(0), back);
    lemma_word_sum_split(front, crate::bytes::be16(c));
    lemma_word_sum_split(front + crate::bytes::be16(c), back);
    let s = word_sum(open);
    assert(word_sum(full) == s + c);
    lemma_word_sum_nonneg(open);
    if s > 0 {
        let q = (s - 1) / 0xffff;
        assert(s - 1 == 0xffff * q + (s - 1) % 0xffff);
        assert(s + c == 0xffff * (q + 1) + 0);
        assert((s + c - 1) == 0xffff * q + 0xfffe);
        assert((s + c - 1) % 0xffff == 0xfffe) by {
            vstd::arithmetic::div_mod::lemma_mod_multiples_vanish(q, 0xfffe, 0xffff);
        }
    }
}

proof fn lemma_word_sum_two(v: u16)
    ensures
        word_sum(crate::bytes::be16(v)) == v,
{
    assert(crate::bytes::be16(v).skip(2) =~= Seq::<u8>::empty());
    assert(crate::bytes::be16(v).subrange(0, 2) =~= crate::bytes::be16(v));
    crate::bytes::lemma_word16(crate::bytes::be16(v), 0, v);
    assert(word_sum(crate::bytes::be16(v).skip(2)) == 0);
}

/// How far the words of some bytes can sum.
pub proof fn lemma_word_sum_bound(b: Seq<u8>)
    ensures
        word_sum(b) <= 0xffff * (b.len() as int),
    decreases b.len(),
{
    if b.len() > 1 {
        lemma_word_sum_bound(b.skip(2));
    }
}

proof fn lemma_word_sum_nonneg(b: Seq<u8>)
    ensures
        word_sum(b) >= 0,
    decreases b.len(),
{
    if b.len() > 1 {
        lemma_word_sum_nonneg(b.skip(2));
    }
}

} // verus!
