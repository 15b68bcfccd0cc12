//! Laws of numbers, texts and addresses.

use vstd::prelude::*;

use crate::ip::{IpAddr, Ipv4};
use crate::json::Json;

verus! {

// --------------------------------------------------------------- bytes

/// The bytes of a number, the highest first, are its digits to the base of 256.
pub proof fn lemma_bytes_of_numbers(a: u16, b: u32, c: u64)
    ensures
        crate::bytes::be16(a).len() == 2 && crate::bytes::be16(a)[0] * 0x100
            + crate::bytes::be16(a)[1] == a,
        ({
            let s = crate::bytes::be32(b);
            s.len() == 4 && s[0] * 0x100_0000 + s[1] * 0x1_0000 + s[2] * 0x100 + s[3] == b
        }),
        ({
            let s = crate::bytes::be64(c);
            s.len() == 8 && (s[0] * 0x100_0000 + s[1] * 0x1_0000 + s[2] * 0x100 + s[3])
                * 0x1_0000_0000 + s[4] * 0x100_0000 + s[5] * 0x1_0000 + s[6] * 0x100 + s[7] == c
        }),
{
    let s = crate::bytes::be64(c);
    let high = (c / 0x1_0000_0000) as u32;
    let low = (c % 0x1_0000_0000) as u32;
    let x = crate::bytes::be32(high);
    let y = crate::bytes::be32(low);
    assert(s == x + y);
    assert(s[0] == x[0] && s[1] == x[1] && s[2] == x[2] && s[3] == x[3]);
    assert(s[4] == y[0] && s[5] == y[1] && s[6] == y[2] && s[7] == y[3]);
}

/// A number is read where it stands.
pub proof fn lemma_words_are_read(s: Seq<u8>, at: int)
    requires
        0 <= at,
        at + 4 <= s.len(),
    ensures
        crate::bytes::word16(s, at) == s[at] * 0x100 + s[at + 1],
        crate::bytes::word32(s, at) == s[at] * 0x100_0000 + s[at + 1] * 0x1_0000 + s[at + 2] * 0x100
            + s[at + 3],
{
}

/// Time that has not come yet is no time ago.
pub proof fn lemma_time_passes(now: u64, at: u64)
    ensures
        now >= at ==> crate::clock::since(now, at) == now - at,
        now < at ==> crate::clock::since(now, at) == 0,
{
}

proof fn lemma_sum_nonneg(b: Seq<u8>)
    ensures
        crate::checksum::word_sum(b) >= 0,
    decreases b.len(),
{
    if b.len() > 1 {
        lemma_sum_nonneg(b.skip(2));
    }
}

/// The checksum of bytes is what their 16-bit words lack to a multiple of
/// 0xffff.
pub proof fn lemma_checksums(b: Seq<u8>)
    ensures
        0 <= crate::checksum::checksum(b) <= 0xffff,
        (crate::checksum::word_sum(b) + crate::checksum::checksum(b)) % 0xffff == 0,
        crate::checksum::word_sum(b) > 0 ==> crate::checksum::checksum(b) < 0xffff,
        b.len() >= 2 ==> crate::checksum::word_sum(b) == b[0] * 0x100 + b[1]
            + crate::checksum::word_sum(b.skip(2)),
        b.len() == 1 ==> crate::checksum::word_sum(b) == b[0] * 0x100,
        b.len() == 0 ==> crate::checksum::word_sum(b) == 0,
{
    lemma_sum_nonneg(b);
    let sum = crate::checksum::word_sum(b);
    if sum > 0 {
        let q = (sum - 1) / 0xffff;
        assert(sum + crate::checksum::checksum(b) == 0xffff * (q + 1));
        assert((0xffff * (q + 1)) % 0xffff == 0);
    }
}

/// Nearest is within half, and the even one of two.
pub proof fn lemma_nearest_is_near(n: nat, d: nat)
    requires
        d > 0,
    ensures
        ({
            let r = crate::double::nearest(n, d);
            &&& -(d as int) <= 2 * (n - r * d) <= d
            &&& 2 * (n - r * d) == d || 2 * (n - r * d) == -(d as int) ==> r % 2 == 0
        }),
{
    let q = (n / d) as int;
    let m = (n % d) as int;
    vstd::arithmetic::div_mod::lemma_fundamental_div_mod(n as int, d as int);
    assert(n == d * q + m && 0 <= m < d);
    assert(d * q == q * d && (q + 1) * d == q * d + d) by (nonlinear_arith);
}

// --------------------------------------------------------------- texts

/// The parts of a text with a character between them.
pub open spec fn glued(parts: Seq<Seq<char>>, c: char) -> Seq<char>
    decreases parts.len(),
{
    if parts.len() == 0 {
        Seq::empty()
    } else if parts.len() == 1 {
        parts[0]
    } else {
        glued(parts.drop_last(), c).push(c) + parts.last()
    }
}

/// A text is its parts with the character between them, and no part holds it.
pub proof fn lemma_split_texts(s: Seq<char>, c: char, i: int)
    ensures
        ({
            let parts = crate::text::split_text(s, c);
            &&& parts.len() > 0
            &&& glued(parts, c) == s
            &&& 0 <= i < parts.len() ==> !parts[i].contains(c)
        }),
    decreases s.len(),
{
    let parts = crate::text::split_text(s, c);
    let at = crate::text::is_char(c);
    crate::text::lemma_pieces_clean(s, at);
    if 0 <= i < parts.len() && parts[i].contains(c) {
        let j = choose|j: int| 0 <= j < parts[i].len() && parts[i][j] == c;
        assert(!at(parts[i][j]));
    }
    if s.len() > 0 {
        let front = crate::text::split_text(s.drop_last(), c);
        lemma_split_texts(s.drop_last(), c, 0);
        assert(s =~= s.drop_last().push(s.last()));
        if s.last() == c {
            assert(parts.drop_last() =~= front);
            assert(glued(parts, c) =~= s);
        } else {
            assert(parts.drop_last() =~= front.drop_last());
            assert(glued(parts, c) =~= s);
        }
    } else {
        assert(parts.len() == 1);
        assert(glued(parts, c) =~= s);
    }
}

proof fn lemma_last(s: Seq<char>, c: char)
    ensures
        match crate::text::last_at(s, c) {
            Some(i) => 0 <= i < s.len() && s[i] == c && forall|j: int|
                i < j < s.len() ==> #[trigger] s[j] != c,
            None => forall|j: int| 0 <= j < s.len() ==> #[trigger] s[j] != c,
        },
    decreases s.len(),
{
    if s.len() > 0 {
        lemma_last(s.drop_last(), c);
        assert forall|j: int| 0 <= j < s.len() - 1 implies s[j] == s.drop_last()[j] by {}
    }
}

/// A text cut in two is the halves with the character between them: the first
/// of its kind, or the last. What cannot be cut does not hold it.
pub proof fn lemma_cut_texts(s: Seq<char>, c: char)
    ensures
        crate::text::cut_text(s, c) is None <==> !s.contains(c),
        crate::text::cut_last_text(s, c) is None <==> !s.contains(c),
        crate::text::cut_text(s, c) matches Some(p) ==> s == p.0.push(c) + p.1 && !p.0.contains(c),
        crate::text::cut_last_text(s, c) matches Some(p) ==> s == p.0.push(c) + p.1
            && !p.1.contains(c),
{
    crate::text::lemma_first_at(s, c);
    lemma_last(s, c);
    if let Some(i) = crate::text::first_at(s, c) {
        assert(s.contains(s[i]));
        assert(s =~= s.take(i).push(c) + s.skip(i + 1));
        assert forall|j: int| 0 <= j < s.take(i).len() implies s.take(i)[j] != c by {}
    }
    if let Some(i) = crate::text::last_at(s, c) {
        assert(s.contains(s[i]));
        assert(s =~= s.take(i).push(c) + s.skip(i + 1));
        let rest = s.skip(i + 1);
        assert forall|j: int| 0 <= j < rest.len() implies #[trigger] rest[j] != c by {
            assert(rest[j] == s[i + 1 + j]);
        }
    }
}

/// A text begins and ends with its parts, and only a beginning is taken off.
pub proof fn lemma_ends_of_texts(a: Seq<char>, b: Seq<char>, s: Seq<char>)
    ensures
        crate::text::begins_with(a + b, a),
        crate::text::finishes_with(a + b, b),
        crate::text::after_prefix(a + b, a) == Some(b),
        crate::text::begins_with(s, a) <==> crate::text::after_prefix(s, a) is Some,
        crate::text::after_prefix(s, a) matches Some(rest) ==> s == a + rest,
        crate::text::finishes_with(s, b) ==> s == s.take(s.len() - b.len()) + b,
{
    assert((a + b).take(a.len() as int) =~= a);
    assert((a + b).skip((a + b).len() - b.len()) =~= b);
    assert((a + b).skip(a.len() as int) =~= b);
    if crate::text::begins_with(s, a) {
        assert(s =~= s.take(a.len() as int) + s.skip(a.len() as int));
    }
    if crate::text::finishes_with(s, b) {
        let k = s.len() - b.len();
        assert(s =~= s.take(k) + s.skip(k));
    }
}

/// The words of a text are not empty and hold no white space.
pub proof fn lemma_words_are_words(s: Seq<char>, i: int, j: int)
    requires
        0 <= i < crate::text::words_of(s).len(),
        0 <= j < crate::text::words_of(s)[i].len(),
    ensures
        crate::text::words_of(s)[i].len() > 0,
        crate::text::words_of(s)[i][j] != ' ',
        crate::text::words_of(s)[i][j] != '\t',
        crate::text::words_of(s)[i][j] != '\n',
{
    let at = |x: char| crate::text::is_space(x);
    let all = crate::text::pieces(s, at);
    let long = |w: Seq<char>| w.len() > 0;
    crate::text::lemma_pieces_clean(s, at);
    all.lemma_filter_contains_rev(long, crate::text::words_of(s)[i]);
    let k = choose|k: int| 0 <= k < all.len() && all[k] == crate::text::words_of(s)[i];
    assert(!at(all[k][j]));
}

/// A digit is worth its place in its alphabet; one more digit is one more place.
pub proof fn lemma_digits_are_worth(s: Seq<char>, c: char, d: int)
    ensures
        '0' <= c <= '9' ==> crate::text::digit_value(c, 10) == Some(c as int - '0' as int),
        !('0' <= c <= '9') ==> crate::text::digit_value(c, 10) is None,
        'a' <= c <= 'f' ==> crate::text::digit_value(c, 16) == Some(c as int - 'a' as int + 10),
        'A' <= c <= 'F' ==> crate::text::digit_value(c, 16) == Some(c as int - 'A' as int + 10),
        crate::text::digits_value(Seq::empty(), 10) == Some(0int),
        crate::text::digits_value(s, 10) matches Some(v) ==> '0' <= c <= '9'
            ==> crate::text::digits_value(s.push(c), 10) == Some(v * 10 + (c as int - '0' as int)),
        crate::text::digits_value(s, 16) matches Some(v) ==> 'a' <= c <= 'f'
            ==> crate::text::digits_value(s.push(c), 16) == Some(
            v * 16 + (c as int - 'a' as int + 10),
        ),
        !('0' <= c <= '9') ==> crate::text::digits_value(s.push(c), 10) is None,
        crate::text::unsigned_value(Seq::empty(), 10) is None,
        0 <= d < 10 ==> crate::text::digit_value(crate::text::digit_char(d), 10) == Some(d),
        0 <= d < 16 ==> crate::text::digit_value(crate::text::digit_char(d), 16) == Some(d),
{
    assert(s.push(c).drop_last() =~= s);
}

/// A number too large is no number; one that fits is itself.
pub proof fn lemma_bounded_numbers(n: nat, max: int)
    ensures
        n <= max ==> crate::text::unsigned_upto(crate::text::decimal_text(n), 10, max) == Some(
            n as int,
        ),
        n > max ==> crate::text::unsigned_upto(crate::text::decimal_text(n), 10, max) is None,
{
    crate::text::lemma_decimal_value(n);
}

// ---------------------------------------------------------------- JSON

/// What stands under a key is the first that does; what is no object has
/// nothing under any key.
pub proof fn lemma_members_are_found(members: Seq<(String, Json)>, key: Seq<char>)
    ensures
        match crate::json::find_member(members, key) {
            Some(v) => exists|i: int|
                0 <= i < members.len() && (#[trigger] members[i]).0@ == key && members[i].1 == v
                    && forall|j: int| 0 <= j < i ==> (#[trigger] members[j]).0@ != key,
            None => forall|i: int| 0 <= i < members.len() ==> (#[trigger] members[i]).0@ != key,
        },
    decreases members.len(),
{
    if members.len() > 0 {
        let rest = members.skip(1);
        if members[0].0@ == key {
            assert(members[0].1 == members[0].1);
        } else {
            lemma_members_are_found(rest, key);
            if crate::json::find_member(rest, key) is Some {
                let v = crate::json::find_member(rest, key)->0;
                let i = choose|i: int|
                    0 <= i < rest.len() && (#[trigger] rest[i]).0@ == key && rest[i].1 == v
                        && forall|j: int| 0 <= j < i ==> (#[trigger] rest[j]).0@ != key;
                assert(members[i + 1] == rest[i]);
                assert forall|j: int| 0 <= j < i + 1 implies (#[trigger] members[j]).0@ != key by {
                    if j > 0 {
                        assert(members[j] == rest[j - 1]);
                    }
                }
            } else {
                assert forall|i: int| 0 <= i < members.len() implies (#[trigger] members[i]).0@
                    != key by {
                    if i > 0 {
                        assert(members[i] == rest[i - 1]);
                    }
                }
            }
        }
    }
}

/// What a member is taken for where it is of the kind asked for, and what
/// stands in for it where it is not.
pub proof fn lemma_members_have_kinds(v: Json, key: Seq<char>, otherwise: bool)
    ensures
        ({
            let m = crate::json::member(v, key);
            let text = m is Some && m->0 is Text;
            let number = m is Some && m->0 is Number;
            let flag = m is Some && m->0 is Bool;
            let object = m is Some && m->0 is Object;
            &&& !(v is Object) ==> m is None
            &&& text ==> crate::json::text_member(v, key) == m->0->Text_0@
            &&& !text ==> crate::json::text_member(v, key) == Seq::<char>::empty()
            &&& number ==> crate::json::number_member(v, key) == m->0->Number_0
            &&& !number ==> crate::json::number_member(v, key) is None
                && crate::json::count_member(v, key) == 0
            &&& flag ==> crate::json::flag_member(v, key, otherwise) == m->0->Bool_0
            &&& !flag ==> crate::json::flag_member(v, key, otherwise) == otherwise
            &&& object ==> crate::json::members_at(v, key) == m->0->Object_0@
            &&& !object ==> crate::json::members_at(v, key).len() == 0
            &&& m is Some ==> crate::json::part_member(v, key) == m->0
            &&& m is None ==> crate::json::part_member(v, key) is Null
            &&& v is List ==> crate::json::items_of(v) == v->List_0@
            &&& !(v is List) ==> crate::json::items_of(v).len() == 0
        }),
{
}

// ----------------------------------------------------------- addresses

proof fn lemma_octet(n: nat)
    requires
        n < 256,
    ensures
        crate::ip::octet_value(crate::text::decimal_text(n)) == Some(n as int),
        forall|j: int|
            0 <= j < crate::text::decimal_text(n).len() ==> #[trigger] crate::text::decimal_text(
                n,
            )[j] != '.',
{
    let t = crate::text::decimal_text(n);
    crate::text::lemma_decimal_value(n);
    if n >= 10 {
        let u = crate::text::decimal_text(n / 10);
        crate::text::lemma_decimal_value(n / 10);
        assert(t =~= u.push(crate::text::digit_char((n % 10) as int)));
        if n >= 100 {
            let w = crate::text::decimal_text(n / 10 / 10);
            assert(u =~= w.push(crate::text::digit_char((n / 10 % 10) as int)));
            assert(w =~= seq![crate::text::digit_char((n / 10 / 10) as int)]);
            assert(t.len() == 3);
            assert(t[0] == w[0]);
        } else {
            assert(u =~= seq![crate::text::digit_char((n / 10) as int)]);
            assert(t.len() == 2);
            assert(t[0] == u[0]);
        }
    }
    assert('0' <= t[0] <= '9');
    assert forall|j: int| 0 <= j < t.len() implies #[trigger] t[j] != '.' by {
        assert('0' <= t[j] <= '9');
    }
}

proof fn lemma_dot(s: Seq<char>, n: nat)
    requires
        n < 256,
    ensures
        crate::text::split_text(s + "."@ + crate::text::decimal_text(n), '.')
            == crate::text::split_text(s, '.').push(crate::text::decimal_text(n)),
{
    let t = crate::text::decimal_text(n);
    let at = crate::text::is_char('.');
    reveal_strlit(".");
    lemma_octet(n);
    let dotted = s + "."@;
    assert(dotted.drop_last() =~= s);
    assert(dotted.last() == '.');
    let front = crate::text::pieces(s, at);
    assert(crate::text::pieces(dotted, at) == front.push(Seq::<char>::empty()));
    assert forall|j: int| 0 <= j < t.len() implies !at(#[trigger] t[j]) by {
        assert(t[j] != '.');
    }
    crate::text::lemma_pieces_append(dotted, t, at);
    assert(front.push(Seq::<char>::empty()).drop_last() =~= front);
    assert(Seq::<char>::empty() + t =~= t);
}

proof fn lemma_dotted_parts(n0: nat, n1: nat, n2: nat, n3: nat)
    requires
        n0 < 256,
        n1 < 256,
        n2 < 256,
        n3 < 256,
    ensures
        ({
            let t0 = crate::text::decimal_text(n0);
            let t1 = crate::text::decimal_text(n1);
            let t2 = crate::text::decimal_text(n2);
            let t3 = crate::text::decimal_text(n3);
            crate::text::split_text(t0 + "."@ + t1 + "."@ + t2 + "."@ + t3, '.') == Seq::<
                Seq<char>,
            >::empty().push(t0).push(t1).push(t2).push(t3)
        }),
{
    let t0 = crate::text::decimal_text(n0);
    let at = crate::text::is_char('.');
    let s1 = t0 + "."@ + crate::text::decimal_text(n1);
    let s2 = s1 + "."@ + crate::text::decimal_text(n2);
    assert(crate::text::split_text(t0, '.') == Seq::<Seq<char>>::empty().push(t0)) by {
        lemma_octet(n0);
        assert forall|j: int| 0 <= j < t0.len() implies !at(#[trigger] t0[j]) by {
            assert(t0[j] != '.');
        }
        crate::text::lemma_pieces_append(Seq::empty(), t0, at);
        assert(Seq::<char>::empty() + t0 =~= t0);
        assert(crate::text::split_text(t0, '.') =~= Seq::<Seq<char>>::empty().push(t0));
    }
    lemma_dot(t0, n1);
    lemma_dot(s1, n2);
    lemma_dot(s2, n3);
}

proof fn lemma_octets_are_read(s: Seq<char>, n0: nat, n1: nat, n2: nat, n3: nat)
    requires
        n0 < 256,
        n1 < 256,
        n2 < 256,
        n3 < 256,
        crate::text::split_text(s, '.') == Seq::<Seq<char>>::empty().push(
            crate::text::decimal_text(n0),
        ).push(crate::text::decimal_text(n1)).push(crate::text::decimal_text(n2)).push(
            crate::text::decimal_text(n3),
        ),
    ensures
        crate::ip::v4_value(s) is Some,
        crate::ip::v4_value(s)->0.bits == n0 * 0x100_0000 + n1 * 0x1_0000 + n2 * 0x100 + n3,
{
    let p = crate::text::split_text(s, '.');
    assert(crate::ip::octet_value(p[0]) == Some(n0 as int)) by {
        lemma_octet(n0);
    }
    assert(crate::ip::octet_value(p[1]) == Some(n1 as int)) by {
        lemma_octet(n1);
    }
    assert(crate::ip::octet_value(p[2]) == Some(n2 as int)) by {
        lemma_octet(n2);
    }
    assert(crate::ip::octet_value(p[3]) == Some(n3 as int)) by {
        lemma_octet(n3);
    }
}

/// An IPv4 address that is written is read back.
#[verifier::spinoff_prover]
pub proof fn lemma_dotted_reads_back(a: Ipv4)
    ensures
        crate::ip::v4_value(crate::ip::v4_text(a)) == Some(a),
        crate::ip::ip_value(crate::ip::v4_text(a)) == Some(IpAddr::V4(a)),
{
    let n0 = (a.bits / 0x100_0000) as nat;
    let n1 = (a.bits / 0x1_0000 % 0x100) as nat;
    let n2 = (a.bits / 0x100 % 0x100) as nat;
    let n3 = (a.bits % 0x100) as nat;
    lemma_dotted_parts(n0, n1, n2, n3);
    lemma_octets_are_read(crate::ip::v4_text(a), n0, n1, n2, n3);
}

/// The bytes of an IPv6 address are its number, the highest first, and a double
/// colon stands for as many zeros as are missing to eight groups.
pub proof fn lemma_colons(s: Seq<char>, i: int)
    ensures
        crate::text::find_from(s, "::"@, 0) matches Some(at) ==> (crate::ip::v6_groups(s) matches
            Some(g) ==> {
            let a = crate::ip::side_groups(s.take(at), false);
            let b = crate::ip::side_groups(s.skip(at + 2), true);
            &&& a is Some && b is Some
            &&& g.len() == 8
            &&& 0 <= i < a->0.len() ==> g[i] == a->0[i]
            &&& 0 <= i < b->0.len() ==> g[8 - b->0.len() + i] == b->0[i]
            &&& a->0.len() <= i < 8 - b->0.len() ==> g[i] == 0
            &&& a->0.len() + b->0.len() < 8
        }),
        crate::text::find_from(s, "::"@, 0) is None ==> (crate::ip::v6_groups(s) matches Some(g)
            ==> g.len() == 8 && crate::ip::side_groups(s, true) == Some(g)),
{
}

// ----------------------------------------------------------- port names

proof fn lemma_from_digit(a: Seq<char>, b: Seq<char>)
    requires
        forall|i: int| 0 <= i < a.len() ==> !('0' <= #[trigger] a[i] <= '9'),
        b.len() == 0 || '0' <= b[0] <= '9',
    ensures
        crate::interfaces::from_digit(a + b) == b,
    decreases a.len(),
{
    if a.len() == 0 {
        assert(a + b =~= b);
    } else {
        assert(!('0' <= a[0] <= '9'));
        assert((a + b)[0] == a[0]);
        assert((a + b).skip(1) =~= a.skip(1) + b);
        assert forall|i: int| 0 <= i < a.skip(1).len() implies !('0' <= #[trigger] a.skip(1)[i]
            <= '9') by {
            assert(a.skip(1)[i] == a[i + 1]);
        }
        lemma_from_digit(a.skip(1), b);
    }
}

proof fn lemma_leading(a: Seq<char>, b: Seq<char>)
    requires
        forall|i: int| 0 <= i < a.len() ==> '0' <= #[trigger] a[i] <= '9',
        b.len() == 0 || !('0' <= b[0] <= '9'),
    ensures
        crate::interfaces::leading_digits(a + b) == a,
    decreases a.len(),
{
    if a.len() == 0 {
        assert(a + b =~= b);
    } else {
        assert('0' <= a[0] <= '9');
        assert((a + b)[0] == a[0]);
        assert((a + b).skip(1) =~= a.skip(1) + b);
        assert forall|i: int| 0 <= i < a.skip(1).len() implies '0' <= #[trigger] a.skip(1)[i]
            <= '9' by {
            assert(a.skip(1)[i] == a[i + 1]);
        }
        lemma_leading(a.skip(1), b);
        assert(seq![a[0]] + a.skip(1) =~= a);
    }
}

/// The number of a port is the first that its name holds.
pub proof fn lemma_ports_are_numbered(front: Seq<char>, n: nat, back: Seq<char>)
    requires
        forall|i: int| 0 <= i < front.len() ==> !('0' <= #[trigger] front[i] <= '9'),
        back.len() == 0 || !('0' <= back[0] <= '9'),
    ensures
        n <= 0xffff ==> crate::interfaces::port_number(front + crate::text::decimal_text(n) + back)
            == n,
        n > 0xffff ==> crate::interfaces::port_number(front + crate::text::decimal_text(n) + back)
            == 0,
        crate::interfaces::port_number(front) == 0,
{
    let t = crate::text::decimal_text(n);
    crate::text::lemma_decimal_value(n);
    assert('0' <= t[0] <= '9');
    assert((t + back)[0] == t[0]);
    lemma_from_digit(front, t + back);
    assert(front + t + back =~= front + (t + back));
    lemma_leading(t, back);
    lemma_bounded_numbers(n, 0xffff);
    lemma_from_digit(front, Seq::empty());
    assert(front + Seq::<char>::empty() =~= front);
}

} // verus!
