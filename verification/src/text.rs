//! Text: characters, numbers and fields of strings, with the order of
//! string keys.
//!
//! A `String` is seen as the sequence of its characters. Everything the
//! daemons read out of text (decimal and hexadecimal numbers, fields,
//! lines) is stated over such sequences.

use vstd::prelude::*;

verus! {

/// `String::push` of the standard library: the character goes behind
/// what the string already holds.
pub assume_specification[ String::push ](s: &mut String, c: char)
    ensures
        final(s)@ == old(s)@.push(c),
;

/// The characters of a string.
pub fn chars_of(s: &str) -> (v: Vec<char>)
    ensures
        v@ == s@,
{
    let mut v: Vec<char> = Vec::new();
    for c in it: s.chars()
        invariant
            v@ == it.seq().take(it.index()),
            it.seq() == s@,
    {
        v.push(c);
        assert(it.seq().take(it.index() + 1) =~= it.seq().take(it.index()).push(c));
    }
    assert(s@.take(s@.len() as int) =~= s@);
    v
}

/// The string made of the characters `from..to`.
pub fn text_of(chars: &[char], from: usize, to: usize) -> (s: String)
    requires
        from <= to <= chars@.len(),
    ensures
        s@ == chars@.subrange(from as int, to as int),
{
    let mut s = String::new();
    let mut i: usize = from;
    while i < to
        invariant
            from <= i <= to <= chars@.len(),
            s@ == chars@.subrange(from as int, i as int),
        decreases to - i,
    {
        s.push(chars[i]);
        assert(chars@.subrange(from as int, i + 1) =~= chars@.subrange(from as int, i as int).push(
            chars@[i as int],
        ));
        i = i + 1;
    }
    s
}

/// Do two strings hold the same characters?
pub fn same_text(a: &str, b: &str) -> (r: bool)
    ensures
        r == (a@ == b@),
{
    let x = a.to_owned();
    let y = b.to_owned();
    x == y
}

// ---------------------------------------------------------------- order

/// The order of strings: the first character that differs decides, and a
/// proper prefix comes first.
pub open spec fn text_before(a: Seq<char>, b: Seq<char>) -> bool
    decreases a.len(),
{
    if b.len() == 0 {
        false
    } else if a.len() == 0 {
        true
    } else if a[0] != b[0] {
        a[0] < b[0]
    } else {
        text_before(a.skip(1), b.skip(1))
    }
}

pub proof fn lemma_text_before_irreflexive(a: Seq<char>)
    ensures
        !text_before(a, a),
    decreases a.len(),
{
    if a.len() > 0 {
        lemma_text_before_irreflexive(a.skip(1));
    }
}

pub proof fn lemma_text_before_transitive(a: Seq<char>, b: Seq<char>, c: Seq<char>)
    requires
        text_before(a, b),
        text_before(b, c),
    ensures
        text_before(a, c),
    decreases a.len(),
{
    if a.len() > 0 && a[0] == b[0] && b[0] == c[0] {
        lemma_text_before_transitive(a.skip(1), b.skip(1), c.skip(1));
    }
}

pub proof fn lemma_text_before_total(a: Seq<char>, b: Seq<char>)
    ensures
        text_before(a, b) || a == b || text_before(b, a),
    decreases a.len(),
{
    if a.len() > 0 && b.len() > 0 {
        if a[0] == b[0] {
            lemma_text_before_total(a.skip(1), b.skip(1));
            if a.skip(1) == b.skip(1) {
                assert(a =~= seq![a[0]] + a.skip(1));
                assert(b =~= seq![b[0]] + b.skip(1));
            }
        }
    } else if a.len() == 0 && b.len() == 0 {
        assert(a =~= b);
    }
}

/// Does the first string come before the second?
pub fn is_text_before(a: &str, b: &str) -> (r: bool)
    ensures
        r == text_before(a@, b@),
{
    let x = chars_of(a);
    let y = chars_of(b);
    let mut i: usize = 0;
    assert(a@.skip(0) =~= a@ && b@.skip(0) =~= b@);
    while i < x.len() && i < y.len()
        invariant
            i <= x.len(),
            i <= y.len(),
            x@ == a@,
            y@ == b@,
            text_before(a@, b@) == text_before(x@.skip(i as int), y@.skip(i as int)),
        decreases x.len() - i,
    {
        let ghost p = x@.skip(i as int);
        let ghost q = y@.skip(i as int);
        assert(p[0] == x@[i as int] && q[0] == y@[i as int]);
        if x[i] != y[i] {
            return x[i] < y[i];
        }
        assert(p.skip(1) =~= x@.skip(i + 1));
        assert(q.skip(1) =~= y@.skip(i + 1));
        i = i + 1;
    }
    i < y.len()
}

// -------------------------------------------------------------- numbers

/// The character of a digit below sixteen, letters in lower case.
pub open spec fn digit_char(d: int) -> char {
    if d < 10 {
        (48 + d) as char
    } else {
        (87 + d) as char
    }
}

/// A number in decimal, without leading zeros.
pub open spec fn decimal_text(n: nat) -> Seq<char>
    decreases n,
{
    if n < 10 {
        seq![digit_char(n as int)]
    } else {
        decimal_text(n / 10).push(digit_char((n % 10) as int))
    }
}

/// A number in hexadecimal, padded with zeros to `width` digits.
pub open spec fn hex_text(n: nat, width: nat) -> Seq<char>
    decreases n + width,
{
    if n < 16 && width <= 1 {
        seq![digit_char(n as int)]
    } else {
        hex_text(n / 16, if width == 0 { 0 } else { (width - 1) as nat }).push(
            digit_char((n % 16) as int),
        )
    }
}

/// The character of a digit below sixteen.
pub fn digit(d: u8) -> (c: char)
    requires
        d < 16,
    ensures
        c == digit_char(d as int),
{
    if d < 10 {
        (48 + d) as char
    } else {
        (87 + d) as char
    }
}

/// Render a number in decimal.
pub fn decimal(n: u64) -> (s: String)
    ensures
        s@ == decimal_text(n as nat),
    decreases n,
{
    if n < 10 {
        let mut s = String::new();
        s.push(digit(n as u8));
        assert(s@ =~= decimal_text(n as nat));
        s
    } else {
        let mut s = decimal(n / 10);
        s.push(digit((n % 10) as u8));
        s
    }
}

/// Render a number in hexadecimal, at least `width` digits wide.
pub fn hex(n: u64, width: u64) -> (s: String)
    ensures
        s@ == hex_text(n as nat, width as nat),
    decreases n + width,
{
    if n < 16 && width <= 1 {
        let mut s = String::new();
        s.push(digit(n as u8));
        assert(s@ =~= hex_text(n as nat, width as nat));
        s
    } else {
        let rest: u64 = if width == 0 {
            0
        } else {
            width - 1
        };
        let mut s = hex(n / 16, rest);
        s.push(digit((n % 16) as u8));
        s
    }
}

/// The value of a digit in a number system of `radix` (at most sixteen).
pub open spec fn digit_value(c: char, radix: int) -> Option<int> {
    let v = if '0' <= c <= '9' {
        c as int - '0' as int
    } else if 'a' <= c <= 'f' {
        c as int - 'a' as int + 10
    } else if 'A' <= c <= 'F' {
        c as int - 'A' as int + 10
    } else {
        16
    };
    if v < radix {
        Some(v)
    } else {
        None
    }
}

/// What a run of digits stands for; `None` if a character is no digit.
pub open spec fn digits_value(s: Seq<char>, radix: int) -> Option<int>
    decreases s.len(),
{
    if s.len() == 0 {
        Some(0)
    } else {
        match (digits_value(s.drop_last(), radix), digit_value(s.last(), radix)) {
            (Some(v), Some(d)) => Some(v * radix + d),
            _ => None,
        }
    }
}

/// What an unsigned number written in `radix` stands for: at least one
/// digit, a plus sign allowed in front.
pub open spec fn unsigned_value(s: Seq<char>, radix: int) -> Option<int> {
    let digits = if s.len() > 0 && s[0] == '+' {
        s.skip(1)
    } else {
        s
    };
    if digits.len() == 0 {
        None
    } else {
        digits_value(digits, radix)
    }
}

/// The value of `s` if it is an unsigned number of at most `max`.
pub open spec fn unsigned_upto(s: Seq<char>, radix: int, max: int) -> Option<int> {
    match unsigned_value(s, radix) {
        Some(v) => if v <= max {
            Some(v)
        } else {
            None
        },
        None => None,
    }
}

/// The front part of a run of digits is a run of digits of no larger value.
pub proof fn lemma_digits_grow(s: Seq<char>, i: int, radix: int)
    requires
        0 <= i <= s.len(),
        2 <= radix <= 16,
    ensures
        digits_value(s, radix) matches Some(v) ==> (digits_value(s.take(i), radix) matches Some(w)
            && 0 <= w <= v),
    decreases s.len() - i,
{
    if i < s.len() {
        lemma_digits_grow(s, i + 1, radix);
        assert(s.take(i + 1).drop_last() =~= s.take(i));
        lemma_digits_nonneg(s.take(i), radix);
        if let Some(w) = digits_value(s.take(i), radix) {
            assert(w * radix >= w) by (nonlinear_arith)
                requires
                    w >= 0,
                    radix >= 1,
            ;
        }
    } else {
        assert(s.take(i) =~= s);
        lemma_digits_nonneg(s, radix);
    }
}

proof fn lemma_digits_nonneg(s: Seq<char>, radix: int)
    requires
        2 <= radix <= 16,
    ensures
        digits_value(s, radix) matches Some(v) ==> v >= 0,
    decreases s.len(),
{
    if s.len() > 0 {
        lemma_digits_nonneg(s.drop_last(), radix);
        if let Some(v) = digits_value(s.drop_last(), radix) {
            assert(v * radix >= 0) by (nonlinear_arith)
                requires
                    v >= 0,
                    radix >= 2,
            ;
        }
    }
}

/// Reading a number written in decimal gives the number.
pub proof fn lemma_decimal_value(n: nat)
    ensures
        digits_value(decimal_text(n), 10) == Some(n as int),
        decimal_text(n).len() > 0,
        unsigned_value(decimal_text(n), 10) == Some(n as int),
        forall|i: int|
            0 <= i < decimal_text(n).len() ==> '0' <= #[trigger] decimal_text(n)[i] <= '9',
    decreases n,
{
    let t = decimal_text(n);
    if n < 10 {
        assert(t.drop_last() =~= Seq::<char>::empty());
        assert(digits_value(t.drop_last(), 10) == Some(0int));
    } else {
        lemma_decimal_value(n / 10);
        assert(t.drop_last() =~= decimal_text(n / 10));
        assert forall|i: int| 0 <= i < t.len() implies '0' <= #[trigger] t[i] <= '9' by {
            if i < t.len() - 1 {
                assert(t[i] == decimal_text(n / 10)[i]);
            }
        }
    }
    assert('0' <= t[0] <= '9');
}

/// An unsigned number is never negative.
pub proof fn lemma_unsigned_nonneg(s: Seq<char>, radix: int)
    requires
        2 <= radix <= 16,
    ensures
        unsigned_value(s, radix) matches Some(v) ==> v >= 0,
{
    lemma_digits_nonneg(s, radix);
    if s.len() > 0 {
        lemma_digits_nonneg(s.skip(1), radix);
    }
}

pub fn digit_of(c: char, radix: u8) -> (r: Option<u8>)
    requires
        radix <= 16,
    ensures
        r is Some <==> digit_value(c, radix as int) is Some,
        r matches Some(d) ==> digit_value(c, radix as int) == Some(d as int) && d < radix,
{
    let v: u32 = if '0' <= c && c <= '9' {
        c as u32 - '0' as u32
    } else if 'a' <= c && c <= 'f' {
        c as u32 - 'a' as u32 + 10
    } else if 'A' <= c && c <= 'F' {
        c as u32 - 'A' as u32 + 10
    } else {
        16
    };
    if v < radix as u32 {
        Some(v as u8)
    } else {
        None
    }
}

/// Read an unsigned number of at most `max` out of the characters
/// `from..to`.
pub fn parse_unsigned(chars: &[char], from: usize, to: usize, radix: u8, max: u64) -> (r: Option<u64>)
    requires
        from <= to <= chars@.len(),
        2 <= radix <= 16,
    ensures
        match r {
            Some(v) => unsigned_upto(
                chars@.subrange(from as int, to as int),
                radix as int,
                max as int,
            ) == Some(v as int),
            None => unsigned_upto(
                chars@.subrange(from as int, to as int),
                radix as int,
                max as int,
            ) is None,
        },
{
    let ghost whole = chars@.subrange(from as int, to as int);
    let start: usize = if from < to && chars[from] == '+' {
        from + 1
    } else {
        from
    };
    if start == to {
        return None;
    }
    let ghost digits = chars@.subrange(start as int, to as int);
    assert(digits =~= if whole.len() > 0 && whole[0] == '+' {
        whole.skip(1)
    } else {
        whole
    });
    let mut value: u64 = 0;
    let mut i: usize = start;
    assert(digits.take(0) =~= Seq::<char>::empty());
    while i < to
        invariant
            from <= start <= i <= to <= chars@.len(),
            start < to,
            2 <= radix <= 16,
            digits == chars@.subrange(start as int, to as int),
            whole == chars@.subrange(from as int, to as int),
            digits == (if whole.len() > 0 && whole[0] == '+' {
                whole.skip(1)
            } else {
                whole
            }),
            digits_value(digits.take(i - start), radix as int) == Some(value as int),
            value <= max,
        decreases to - i,
    {
        assert(digits.take(i + 1 - start).drop_last() =~= digits.take(i - start));
        assert(digits.take(i + 1 - start).last() == chars@[i as int]);
        proof {
            lemma_digits_grow(digits, i + 1 - start, radix as int);
        }
        match digit_of(chars[i], radix) {
            None => {
                return None;
            },
            Some(d) => {
                assert(0 <= value * radix <= 0x10_0000_0000_0000_0000) by (nonlinear_arith)
                    requires
                        0 <= value <= 0xffff_ffff_ffff_ffff,
                        0 <= radix <= 16,
                ;
                let next: u128 = value as u128 * radix as u128 + d as u128;
                if next > max as u128 {
                    return None;
                }
                value = next as u64;
            },
        }
        i = i + 1;
    }
    assert(digits.take(to - start) =~= digits);
    Some(value)
}

/// Read an unsigned decimal number of at most `max`.
pub fn parse_decimal(s: &str, max: u64) -> (r: Option<u64>)
    ensures
        match r {
            Some(v) => unsigned_upto(s@, 10, max as int) == Some(v as int),
            None => unsigned_upto(s@, 10, max as int) is None,
        },
{
    let chars = chars_of(s);
    let len: usize = chars.len();
    assert(chars@.subrange(0, len as int) =~= s@);
    parse_unsigned(chars.as_slice(), 0, len, 10, max)
}

/// Read an unsigned hexadecimal number of at most `max`.
pub fn parse_hex(s: &str, max: u64) -> (r: Option<u64>)
    ensures
        match r {
            Some(v) => unsigned_upto(s@, 16, max as int) == Some(v as int),
            None => unsigned_upto(s@, 16, max as int) is None,
        },
{
    let chars = chars_of(s);
    let len: usize = chars.len();
    assert(chars@.subrange(0, len as int) =~= s@);
    parse_unsigned(chars.as_slice(), 0, len, 16, max)
}

// --------------------------------------------------------------- fields

/// White space, as Unicode defines it.
pub open spec fn is_space(c: char) -> bool {
    ||| '\u{9}' <= c <= '\u{d}'
    ||| c == ' '
    ||| c == '\u{85}'
    ||| c == '\u{a0}'
    ||| c == '\u{1680}'
    ||| '\u{2000}' <= c <= '\u{200a}'
    ||| c == '\u{2028}'
    ||| c == '\u{2029}'
    ||| c == '\u{202f}'
    ||| c == '\u{205f}'
    ||| c == '\u{3000}'
}

pub fn is_white(c: char) -> (r: bool)
    ensures
        r == is_space(c),
{
    ('\u{9}' <= c && c <= '\u{d}') || c == ' ' || c == '\u{85}' || c == '\u{a0}' || c == '\u{1680}' || (
    '\u{2000}' <= c && c <= '\u{200a}') || c == '\u{2028}' || c == '\u{2029}' || c == '\u{202f}' || c
        == '\u{205f}' || c == '\u{3000}'
}

/// A string without the white space in front of it.
pub open spec fn trim_start(s: Seq<char>) -> Seq<char>
    decreases s.len(),
{
    if s.len() > 0 && is_space(s[0]) {
        trim_start(s.skip(1))
    } else {
        s
    }
}

/// A string without the white space behind it.
pub open spec fn trim_end(s: Seq<char>) -> Seq<char>
    decreases s.len(),
{
    if s.len() > 0 && is_space(s.last()) {
        trim_end(s.drop_last())
    } else {
        s
    }
}

/// A string without the white space around it.
pub open spec fn trim_text(s: Seq<char>) -> Seq<char> {
    trim_end(trim_start(s))
}

/// The bounds of what is left of `from..to` without the white space
/// around it.
fn trim_bounds(chars: &[char], from: usize, to: usize) -> (r: (usize, usize))
    requires
        from <= to <= chars@.len(),
    ensures
        from <= r.0 <= r.1 <= to,
        chars@.subrange(r.0 as int, r.1 as int) == trim_text(
            chars@.subrange(from as int, to as int),
        ),
{
    let mut a: usize = from;
    while a < to && is_white(chars[a])
        invariant
            from <= a <= to <= chars@.len(),
            trim_start(chars@.subrange(a as int, to as int)) == trim_start(
                chars@.subrange(from as int, to as int),
            ),
        decreases to - a,
    {
        assert(chars@.subrange(a as int, to as int).skip(1) =~= chars@.subrange(
            a + 1,
            to as int,
        ));
        a = a + 1;
    }
    let mut b: usize = to;
    while b > a && is_white(chars[b - 1])
        invariant
            from <= a <= b <= to <= chars@.len(),
            trim_end(chars@.subrange(a as int, b as int)) == trim_end(
                chars@.subrange(a as int, to as int),
            ),
        decreases b - a,
    {
        assert(chars@.subrange(a as int, b as int).drop_last() =~= chars@.subrange(
            a as int,
            b - 1,
        ));
        b = b - 1;
    }
    (a, b)
}

/// Drop the white space around a string.
pub fn trim(s: &str) -> (r: String)
    ensures
        r@ == trim_text(s@),
{
    let chars = chars_of(s);
    let len: usize = chars.len();
    assert(chars@.subrange(0, len as int) =~= s@);
    let (a, b) = trim_bounds(chars.as_slice(), 0, len);
    text_of(chars.as_slice(), a, b)
}

/// The pieces of a string between the characters that `at` names: one
/// piece more than there are such characters.
pub open spec fn pieces(s: Seq<char>, at: spec_fn(char) -> bool) -> Seq<Seq<char>>
    decreases s.len(),
{
    if s.len() == 0 {
        seq![Seq::<char>::empty()]
    } else {
        let front = pieces(s.drop_last(), at);
        if at(s.last()) {
            front.push(Seq::<char>::empty())
        } else {
            front.drop_last().push(front.last().push(s.last()))
        }
    }
}

pub proof fn lemma_pieces_nonempty(s: Seq<char>, at: spec_fn(char) -> bool)
    ensures
        pieces(s, at).len() > 0,
    decreases s.len(),
{
    if s.len() > 0 {
        lemma_pieces_nonempty(s.drop_last(), at);
    }
}

/// The test for one character.
pub open spec fn is_char(c: char) -> spec_fn(char) -> bool {
    |x: char| x == c
}

/// The pieces of a string between the occurrences of a character.
pub open spec fn split_text(s: Seq<char>, c: char) -> Seq<Seq<char>> {
    pieces(s, is_char(c))
}

/// The words of a string: its pieces between white space that are not
/// empty.
pub open spec fn words_of(s: Seq<char>) -> Seq<Seq<char>> {
    pieces(s, |x: char| is_space(x)).filter(|w: Seq<char>| w.len() > 0)
}

/// Split a string at every occurrence of a character.
pub fn split(s: &str, c: char) -> (r: Vec<String>)
    ensures
        r.deep_view() == split_text(s@, c),
        r@.len() > 0,
{
    let chars = chars_of(s);
    let ghost at = is_char(c);
    let mut done: Vec<String> = Vec::new();
    let mut current = String::new();
    let mut i: usize = 0;
    assert(chars@.take(0) =~= Seq::<char>::empty());
    assert(done.deep_view().push(current@) =~= seq![Seq::<char>::empty()]);
    while i < chars.len()
        invariant
            i <= chars@.len(),
            chars@ == s@,
            at == is_char(c),
            done.deep_view().push(current@) == pieces(chars@.take(i as int), at),
        decreases chars@.len() - i,
    {
        let ghost front = pieces(chars@.take(i as int), at);
        let ghost before = done.deep_view();
        assert(chars@.take(i + 1).drop_last() =~= chars@.take(i as int));
        assert(front.drop_last() =~= before);
        if chars[i] == c {
            done.push(current);
            assert(done.deep_view() =~= before.push(front.last()));
            assert(done.deep_view() =~= front);
            current = String::new();
        } else {
            current.push(chars[i]);
        }
        i = i + 1;
        assert(done.deep_view().push(current@) =~= pieces(chars@.take(i as int), at));
    }
    let ghost before = done.deep_view();
    let ghost last = current@;
    done.push(current);
    assert(chars@.take(i as int) =~= s@);
    assert(done.deep_view() =~= before.push(last));
    done
}

/// The words of a string, split at white space.
pub fn words(s: &str) -> (r: Vec<String>)
    ensures
        r.deep_view() == words_of(s@),
{
    let chars = chars_of(s);
    let ghost at = |x: char| is_space(x);
    let ghost keep = |w: Seq<char>| w.len() > 0;
    let ghost mut front: Seq<Seq<char>> = Seq::empty();
    let mut done: Vec<String> = Vec::new();
    let mut current = String::new();
    let mut i: usize = 0;
    assert(chars@.take(0) =~= Seq::<char>::empty());
    assert(front.push(current@) =~= seq![Seq::<char>::empty()]);
    proof {
        reveal(Seq::filter);
    }
    assert(front.filter(keep) =~= Seq::<Seq<char>>::empty());
    assert(done.deep_view() =~= front.filter(keep));
    while i < chars.len()
        invariant
            i <= chars@.len(),
            chars@ == s@,
            at == (|x: char| is_space(x)),
            keep == (|w: Seq<char>| w.len() > 0),
            front.push(current@) == pieces(chars@.take(i as int), at),
            done.deep_view() == front.filter(keep),
        decreases chars@.len() - i,
    {
        assert(chars@.take(i + 1).drop_last() =~= chars@.take(i as int));
        assert(front.push(current@).drop_last() =~= front);
        let ghost whole = front.push(current@);
        if is_white(chars[i]) {
            let ghost before = done.deep_view();
            proof {
                front.lemma_filter_push(current@, keep);
            }
            if !current.as_str().is_empty() {
                done.push(current);
                assert(done.deep_view() =~= before.push(whole.last()));
            }
            current = String::new();
            proof {
                front = whole;
            }
        } else {
            current.push(chars[i]);
        }
        i = i + 1;
        assert(front.push(current@) =~= pieces(chars@.take(i as int), at));
    }
    assert(chars@.take(i as int) =~= s@);
    proof {
        front.lemma_filter_push(current@, keep);
    }
    let ghost before = done.deep_view();
    if !current.as_str().is_empty() {
        let ghost last = current@;
        done.push(current);
        assert(done.deep_view() =~= before.push(last));
    }
    done
}

/// Where a character first occurs.
pub open spec fn first_at(s: Seq<char>, c: char) -> Option<int>
    decreases s.len(),
{
    if s.len() == 0 {
        None
    } else {
        match first_at(s.drop_last(), c) {
            Some(i) => Some(i),
            None => if s.last() == c {
                Some(s.len() - 1)
            } else {
                None
            },
        }
    }
}

/// What `first_at` means: the first index that holds the character.
pub proof fn lemma_first_at(s: Seq<char>, c: char)
    ensures
        match first_at(s, c) {
            Some(i) => 0 <= i < s.len() && s[i] == c && (forall|j: int| 0 <= j < i ==> s[j] != c),
            None => forall|j: int| 0 <= j < s.len() ==> s[j] != c,
        },
    decreases s.len(),
{
    if s.len() > 0 {
        lemma_first_at(s.drop_last(), c);
        assert forall|j: int| 0 <= j < s.len() - 1 implies s[j] == s.drop_last()[j] by {}
    }
}

/// A string cut in two at the first occurrence of a character, which
/// belongs to neither half.
pub open spec fn cut_text(s: Seq<char>, c: char) -> Option<(Seq<char>, Seq<char>)> {
    match first_at(s, c) {
        Some(i) => Some((s.take(i), s.skip(i + 1))),
        None => None,
    }
}

fn find_char(chars: &[char], c: char) -> (r: Option<usize>)
    ensures
        match r {
            Some(i) => first_at(chars@, c) == Some(i as int) && i < chars@.len(),
            None => first_at(chars@, c) is None,
        },
{
    let mut i: usize = 0;
    assert(chars@.take(0) =~= Seq::<char>::empty());
    while i < chars.len()
        invariant
            i <= chars@.len(),
            first_at(chars@.take(i as int), c) is None,
        decreases chars@.len() - i,
    {
        assert(chars@.take(i + 1).drop_last() =~= chars@.take(i as int));
        if chars[i] == c {
            proof {
                lemma_first_at(chars@, c);
                lemma_first_at(chars@.take(i as int), c);
                assert forall|j: int| 0 <= j < i implies chars@[j] == chars@.take(i as int)[j] by {}
                assert(first_at(chars@, c) is Some);
            }
            return Some(i);
        }
        i = i + 1;
    }
    assert(chars@.take(i as int) =~= chars@);
    None
}

/// Does a character occur in a string?
pub fn has_char(s: &str, c: char) -> (r: bool)
    ensures
        r == s@.contains(c),
{
    let chars = chars_of(s);
    proof {
        lemma_first_at(s@, c);
    }
    match find_char(chars.as_slice(), c) {
        Some(i) => true,
        None => false,
    }
}

/// Cut a string at the first occurrence of a character.
pub fn cut(s: &str, c: char) -> (r: Option<(String, String)>)
    ensures
        match r {
            Some((a, b)) => cut_text(s@, c) == Some((a@, b@)),
            None => cut_text(s@, c) is None,
        },
{
    let chars = chars_of(s);
    let len: usize = chars.len();
    match find_char(chars.as_slice(), c) {
        Some(i) => {
            let a = text_of(chars.as_slice(), 0, i);
            let b = text_of(chars.as_slice(), i + 1, len);
            assert(a@ =~= s@.take(i as int));
            assert(b@ =~= s@.skip(i + 1));
            Some((a, b))
        },
        None => None,
    }
}

/// What comes before the first occurrence of a character; the whole
/// string where there is none.
pub open spec fn head_text(s: Seq<char>, c: char) -> Seq<char> {
    match first_at(s, c) {
        Some(i) => s.take(i),
        None => s,
    }
}

/// The first piece of a string split at a character.
pub fn head(s: &str, c: char) -> (r: String)
    ensures
        r@ == head_text(s@, c),
{
    match cut(s, c) {
        Some((a, b)) => a,
        None => s.to_owned(),
    }
}

/// Does `s` begin with `prefix`?
pub open spec fn begins_with(s: Seq<char>, prefix: Seq<char>) -> bool {
    s.len() >= prefix.len() && s.take(prefix.len() as int) == prefix
}

/// Does `s` end with `suffix`?
pub open spec fn finishes_with(s: Seq<char>, suffix: Seq<char>) -> bool {
    s.len() >= suffix.len() && s.skip(s.len() - suffix.len()) == suffix
}

/// Does `part` stand in `chars` at index `at`?
fn stands_at(chars: &[char], at: usize, part: &[char]) -> (r: bool)
    requires
        at <= chars@.len(),
    ensures
        r == begins_with(chars@.skip(at as int), part@),
{
    if chars.len() - at < part.len() {
        return false;
    }
    let ghost rest = chars@.skip(at as int);
    let mut i: usize = 0;
    while i < part.len()
        invariant
            at <= chars@.len(),
            i <= part@.len(),
            at + part@.len() <= chars.len(),
            rest == chars@.skip(at as int),
            forall|j: int| 0 <= j < i ==> rest[j] == part@[j],
        decreases part@.len() - i,
    {
        if chars[at + i] != part[i] {
            assert(rest[i as int] != part@[i as int]);
            assert(rest.take(part@.len() as int)[i as int] == rest[i as int]);
            return false;
        }
        i = i + 1;
    }
    assert(rest.take(part@.len() as int) =~= part@);
    true
}

pub fn starts_with(s: &str, prefix: &str) -> (r: bool)
    ensures
        r == begins_with(s@, prefix@),
{
    let chars = chars_of(s);
    let part = chars_of(prefix);
    assert(chars@.skip(0) =~= chars@);
    stands_at(chars.as_slice(), 0, part.as_slice())
}

pub fn ends_with(s: &str, suffix: &str) -> (r: bool)
    ensures
        r == finishes_with(s@, suffix@),
{
    let chars = chars_of(s);
    let part = chars_of(suffix);
    if chars.len() < part.len() {
        return false;
    }
    let at: usize = chars.len() - part.len();
    let ghost rest = chars@.skip(at as int);
    assert(rest.take(part@.len() as int) =~= rest);
    stands_at(chars.as_slice(), at, part.as_slice())
}

/// What follows a prefix, where the string has it.
pub open spec fn after_prefix(s: Seq<char>, prefix: Seq<char>) -> Option<Seq<char>> {
    if begins_with(s, prefix) {
        Some(s.skip(prefix.len() as int))
    } else {
        None
    }
}

pub fn strip_prefix(s: &str, prefix: &str) -> (r: Option<String>)
    ensures
        match r {
            Some(rest) => after_prefix(s@, prefix@) == Some(rest@),
            None => after_prefix(s@, prefix@) is None,
        },
{
    let chars = chars_of(s);
    let part = chars_of(prefix);
    assert(chars@.skip(0) =~= chars@);
    if stands_at(chars.as_slice(), 0, part.as_slice()) {
        let rest = text_of(chars.as_slice(), part.len(), chars.len());
        assert(rest@ =~= s@.skip(prefix@.len() as int));
        Some(rest)
    } else {
        None
    }
}

/// Where `part` first stands in `s`, looking from index `from` on.
pub open spec fn find_from(s: Seq<char>, part: Seq<char>, from: int) -> Option<int>
    decreases s.len() - from + 1,
{
    if from < 0 || from > s.len() {
        None
    } else if begins_with(s.skip(from), part) {
        Some(from)
    } else {
        find_from(s, part, from + 1)
    }
}

/// Does `part` stand anywhere in `s`?
pub open spec fn holds_text(s: Seq<char>, part: Seq<char>) -> bool {
    find_from(s, part, 0) is Some
}

/// Find `part` in `s` from index `from` on.
pub fn find(s: &[char], part: &[char], from: usize) -> (r: Option<usize>)
    requires
        from <= s@.len(),
    ensures
        match r {
            Some(i) => find_from(s@, part@, from as int) == Some(i as int) && from <= i && i
                + part@.len() <= s@.len(),
            None => find_from(s@, part@, from as int) is None,
        },
{
    let mut i: usize = from;
    loop
        invariant
            from <= i <= s@.len(),
            find_from(s@, part@, from as int) == find_from(s@, part@, i as int),
        decreases s@.len() - i,
    {
        if stands_at(s, i, part) {
            return Some(i);
        }
        if i == s.len() {
            assert(find_from(s@, part@, i + 1) is None);
            return None;
        }
        i = i + 1;
    }
}

pub fn contains(s: &str, part: &str) -> (r: bool)
    ensures
        r == holds_text(s@, part@),
{
    let a = chars_of(s);
    let b = chars_of(part);
    find(a.as_slice(), b.as_slice(), 0).is_some()
}

/// A copy of a list of strings.
pub fn copy_texts(v: &Vec<String>) -> (r: Vec<String>)
    ensures
        r@ == v@,
{
    let mut r: Vec<String> = Vec::new();
    let mut i: usize = 0;
    while i < v.len()
        invariant
            i <= v@.len(),
            r@ == v@.take(i as int),
        decreases v@.len() - i,
    {
        r.push(v[i].clone());
        assert(v@.take(i + 1) =~= v@.take(i as int).push(v@[i as int]));
        i = i + 1;
    }
    assert(v@.take(i as int) =~= v@);
    r
}

/// Are two lists of strings the same?
pub fn same_texts(a: &Vec<String>, b: &Vec<String>) -> (r: bool)
    ensures
        r == (a.deep_view() == b.deep_view()),
{
    let ghost x = a.deep_view();
    let ghost y = b.deep_view();
    assert(x.len() == a@.len() && y.len() == b@.len());
    if a.len() != b.len() {
        return false;
    }
    let mut i: usize = 0;
    while i < a.len()
        invariant
            i <= a@.len() == b@.len(),
            x == a.deep_view(),
            y == b.deep_view(),
            forall|j: int| 0 <= j < i ==> x[j] == y[j],
        decreases a@.len() - i,
    {
        assert(x[i as int] == a@[i as int]@ && y[i as int] == b@[i as int]@);
        if !same_text(a[i].as_str(), b[i].as_str()) {
            return false;
        }
        i = i + 1;
    }
    assert(x =~= y);
    true
}

/// Is a string one of a list?
pub fn is_among(v: &Vec<String>, s: &str) -> (r: bool)
    ensures
        r == v.deep_view().contains(s@),
{
    let mut i: usize = 0;
    while i < v.len()
        invariant
            i <= v@.len(),
            forall|j: int| 0 <= j < i ==> v@[j]@ != s@,
        decreases v@.len() - i,
    {
        if same_text(v[i].as_str(), s) {
            assert(v.deep_view()[i as int] == s@);
            return true;
        }
        i = i + 1;
    }
    assert forall|j: int| 0 <= j < v.deep_view().len() implies v.deep_view()[j] != s@ by {
        assert(v.deep_view()[j] == v@[j]@);
    }
    false
}

/// A list of strings in one, with a separator between them.
pub open spec fn join_text(parts: Seq<Seq<char>>, sep: Seq<char>) -> Seq<char>
    decreases parts.len(),
{
    if parts.len() == 0 {
        Seq::empty()
    } else if parts.len() == 1 {
        parts[0]
    } else {
        join_text(parts.drop_last(), sep) + sep + parts.last()
    }
}

pub fn join(parts: &Vec<String>, sep: &str) -> (r: String)
    ensures
        r@ == join_text(parts.deep_view(), sep@),
{
    let ghost all = parts.deep_view();
    let mut r = String::new();
    let mut i: usize = 0;
    assert(all.take(0) =~= Seq::<Seq<char>>::empty());
    while i < parts.len()
        invariant
            i <= parts@.len(),
            all == parts.deep_view(),
            r@ == join_text(all.take(i as int), sep@),
        decreases parts@.len() - i,
    {
        assert(all.take(i + 1).drop_last() =~= all.take(i as int));
        assert(all.take(i + 1).last() == parts@[i as int]@);
        if i > 0 {
            r.append(sep);
        }
        r.append(parts[i].as_str());
        i = i + 1;
        if i == 1 {
            assert(r@ =~= all[0]);
        }
    }
    assert(all.take(i as int) =~= all);
    r
}

/// Two strings in a row.
pub fn cat2(a: &str, b: &str) -> (r: String)
    ensures
        r@ == a@ + b@,
{
    let mut r = a.to_owned();
    r.append(b);
    r
}

/// Three strings in a row.
pub fn cat3(a: &str, b: &str, c: &str) -> (r: String)
    ensures
        r@ == a@ + b@ + c@,
{
    let mut r = cat2(a, b);
    r.append(c);
    r
}

/// Four strings in a row.
pub fn cat4(a: &str, b: &str, c: &str, d: &str) -> (r: String)
    ensures
        r@ == a@ + b@ + c@ + d@,
{
    let mut r = cat3(a, b, c);
    r.append(d);
    r
}

/// Five strings in a row.
pub fn cat5(a: &str, b: &str, c: &str, d: &str, e: &str) -> (r: String)
    ensures
        r@ == a@ + b@ + c@ + d@ + e@,
{
    let mut r = cat4(a, b, c, d);
    r.append(e);
    r
}

/// Six strings in a row.
pub fn cat6(a: &str, b: &str, c: &str, d: &str, e: &str, f: &str) -> (r: String)
    ensures
        r@ == a@ + b@ + c@ + d@ + e@ + f@,
{
    let mut r = cat5(a, b, c, d, e);
    r.append(f);
    r
}

/// The debug form of a string: in double quotes, with the characters
/// escaped that do not print.
pub uninterp spec fn quoted_text(s: Seq<char>) -> Seq<char>;

/// Formatting a `str` with `{:?}` in the standard library. Which
/// characters are escaped follows the Unicode tables; the result is a
/// function of the characters and has a name of its own.
#[verifier::external_body]
pub(crate) fn quoted(s: &str) -> (r: String)
    ensures
        r@ == quoted_text(s@),
{
    format!("{:?}", s)
}

/// The debug form of a file path.
pub uninterp spec fn quoted_path_text(s: Seq<char>) -> Seq<char>;

/// Formatting a `std::path::Path` with `{:?}` in the standard library,
/// which escapes other characters than the debug form of a string does.
/// The result is a function of the path's characters.
#[verifier::external_body]
pub(crate) fn quoted_path(s: &str) -> (r: String)
    ensures
        r@ == quoted_path_text(s@),
{
    format!("{:?}", std::path::Path::new(s))
}

/// What the standard library reads in bytes that are not UTF-8: the text
/// with replacement characters for what is not.
pub uninterp spec fn replaced_text(bytes: Seq<u8>) -> Seq<char>;

/// Bytes read as text: UTF-8 as it stands, anything else with replacement
/// characters.
pub open spec fn lossy(bytes: Seq<u8>) -> Seq<char> {
    if vstd::utf8::valid_utf8(bytes) {
        vstd::utf8::decode_utf8(bytes)
    } else {
        replaced_text(bytes)
    }
}

/// `String::from_utf8_lossy`: valid UTF-8 comes back as the text it
/// encodes. Where the bytes are not valid, how many replacement characters
/// stand where is left to the name.
#[verifier::external_body]
pub(crate) fn read_lossy(bytes: &[u8]) -> (r: String)
    ensures
        r@ == (if vstd::utf8::valid_utf8(bytes@) {
            vstd::utf8::decode_utf8(bytes@)
        } else {
            replaced_text(bytes@)
        }),
{
    String::from_utf8_lossy(bytes).into_owned()
}

/// A text without the characters of one kind at its end.
pub open spec fn trim_last(s: Seq<char>, c: char) -> Seq<char>
    decreases s.len(),
{
    if s.len() > 0 && s.last() == c {
        trim_last(s.drop_last(), c)
    } else {
        s
    }
}

/// A text without the characters of one kind at its end.
pub fn trim_end_char(s: &str, c: char) -> (r: String)
    ensures
        r@ == trim_last(s@, c),
{
    let chars = chars_of(s);
    let mut end: usize = chars.len();
    assert(chars@.take(end as int) =~= chars@);
    while end > 0 && chars[end - 1] == c
        invariant
            end <= chars@.len(),
            trim_last(chars@, c) == trim_last(chars@.take(end as int), c),
        decreases end,
    {
        assert(chars@.take(end as int).drop_last() =~= chars@.take(end - 1));
        end = end - 1;
    }
    let r = text_of(chars.as_slice(), 0, end);
    assert(r@ =~= chars@.take(end as int));
    r
}

/// A text without the characters of one kind at its start.
pub open spec fn trim_first(s: Seq<char>, c: char) -> Seq<char>
    decreases s.len(),
{
    if s.len() > 0 && s[0] == c {
        trim_first(s.skip(1), c)
    } else {
        s
    }
}

/// A text without the characters of one kind at its start.
pub fn trim_start_char(s: &str, c: char) -> (r: String)
    ensures
        r@ == trim_first(s@, c),
{
    let chars = chars_of(s);
    let len: usize = chars.len();
    let mut start: usize = 0;
    assert(chars@.skip(0) =~= chars@);
    while start < len && chars[start] == c
        invariant
            start <= len,
            len == chars@.len(),
            trim_first(chars@, c) == trim_first(chars@.skip(start as int), c),
        decreases len - start,
    {
        assert(chars@.skip(start as int).skip(1) =~= chars@.skip(start + 1));
        start = start + 1;
    }
    let r = text_of(chars.as_slice(), start, len);
    assert(r@ =~= chars@.skip(start as int));
    r
}

/// Where a character last occurs.
pub open spec fn last_at(s: Seq<char>, c: char) -> Option<int>
    decreases s.len(),
{
    if s.len() == 0 {
        None
    } else if s.last() == c {
        Some(s.len() - 1)
    } else {
        last_at(s.drop_last(), c)
    }
}

/// A string cut in two at the last occurrence of a character, which
/// belongs to neither half.
pub open spec fn cut_last_text(s: Seq<char>, c: char) -> Option<(Seq<char>, Seq<char>)> {
    match last_at(s, c) {
        Some(i) => Some((s.take(i), s.skip(i + 1))),
        None => None,
    }
}

/// Cut a string at the last occurrence of a character.
pub fn cut_last(s: &str, c: char) -> (r: Option<(String, String)>)
    ensures
        match r {
            Some((a, b)) => cut_last_text(s@, c) == Some((a@, b@)),
            None => cut_last_text(s@, c) is None,
        },
{
    let chars = chars_of(s);
    let len: usize = chars.len();
    let mut end: usize = len;
    assert(chars@.take(end as int) =~= chars@);
    while end > 0
        invariant
            end <= len,
            len == chars@.len(),
            chars@ == s@,
            last_at(chars@, c) == last_at(chars@.take(end as int), c),
        decreases end,
    {
        assert(chars@.take(end as int).drop_last() =~= chars@.take(end - 1));
        if chars[end - 1] == c {
            let a = text_of(chars.as_slice(), 0, end - 1);
            let b = text_of(chars.as_slice(), end, len);
            assert(a@ =~= s@.take(end - 1));
            assert(b@ =~= s@.skip(end as int));
            return Some((a, b));
        }
        end = end - 1;
    }
    None
}

/// A line without the carriage return at its end.
pub open spec fn without_return(line: Seq<char>) -> Seq<char> {
    if line.len() > 0 && line.last() == '\r' {
        line.drop_last()
    } else {
        line
    }
}

/// The lines of a text: its pieces between line feeds, each without the
/// carriage return before its line feed. Nothing behind the last line feed
/// is no line.
pub open spec fn lines_of(s: Seq<char>) -> Seq<Seq<char>> {
    let p = split_text(s, '\n');
    let ended = Seq::new((p.len() - 1) as nat, |i: int| without_return(p[i]));
    if p.last().len() == 0 {
        ended
    } else {
        ended.push(p.last())
    }
}

fn drop_return(line: &str) -> (r: String)
    ensures
        r@ == without_return(line@),
{
    let chars = chars_of(line);
    let len: usize = chars.len();
    if len > 0 && chars[len - 1] == '\r' {
        let r = text_of(chars.as_slice(), 0, len - 1);
        assert(r@ =~= line@.drop_last());
        r
    } else {
        line.to_owned()
    }
}

/// The lines of a text.
pub fn lines(s: &str) -> (r: Vec<String>)
    ensures
        r.deep_view() == lines_of(s@),
{
    let parts = split(s, '\n');
    let ghost p = parts.deep_view();
    let mut r: Vec<String> = Vec::new();
    let mut i: usize = 0;
    while i < parts.len() - 1
        invariant
            i < parts@.len(),
            p == parts.deep_view(),
            r@.len() == i,
            forall|j: int| 0 <= j < i ==> (#[trigger] r@[j])@ == without_return(p[j]),
        decreases parts@.len() - i,
    {
        assert(p[i as int] == parts@[i as int]@);
        r.push(drop_return(&parts[i]));
        i = i + 1;
    }
    assert(p[i as int] == parts@[i as int]@);
    let ghost ended = Seq::new((p.len() - 1) as nat, |i: int| without_return(p[i]));
    assert(r.deep_view() =~= ended);
    if !parts[i].as_str().is_empty() {
        r.push(parts[i].clone());
        assert(r.deep_view() =~= ended.push(p.last()));
    }
    r
}

/// No piece holds a character that pieces are split at, and there are at
/// most as many pieces as characters, and one more.
pub proof fn lemma_pieces_clean(s: Seq<char>, at: spec_fn(char) -> bool)
    ensures
        0 < pieces(s, at).len() <= s.len() + 1,
        forall|i: int, j: int|
            0 <= i < pieces(s, at).len() && 0 <= j < pieces(s, at)[i].len() ==> !at(
                #[trigger] pieces(s, at)[i][j],
            ),
    decreases s.len(),
{
    if s.len() > 0 {
        lemma_pieces_clean(s.drop_last(), at);
        let front = pieces(s.drop_last(), at);
        let whole = pieces(s, at);
        assert forall|i: int, j: int| 0 <= i < whole.len() && 0 <= j < whole[i].len() implies !at(
            #[trigger] whole[i][j],
        ) by {
            if i < front.len() - 1 {
                assert(whole[i] == front[i]);
                assert(!at(front[i][j]));
            } else if at(s.last()) {
                if i < front.len() {
                    assert(whole[i] == front[i]);
                    assert(!at(front[i][j]));
                }
            } else {
                assert(whole[i] == front.last().push(s.last()));
                if j < front.last().len() {
                    assert(whole[i][j] == front[front.len() - 1][j]);
                    assert(!at(front[front.len() - 1][j]));
                }
            }
        }
    }
}

/// What is appended without a split belongs to the last piece.
pub proof fn lemma_pieces_append(a: Seq<char>, b: Seq<char>, at: spec_fn(char) -> bool)
    requires
        forall|j: int| 0 <= j < b.len() ==> !at(#[trigger] b[j]),
    ensures
        pieces(a + b, at) == pieces(a, at).drop_last().push(pieces(a, at).last() + b),
    decreases b.len(),
{
    lemma_pieces_nonempty(a, at);
    if b.len() == 0 {
        assert(a + b =~= a);
        assert(pieces(a, at).last() + b =~= pieces(a, at).last());
        assert(pieces(a, at).drop_last().push(pieces(a, at).last()) =~= pieces(a, at));
    } else {
        assert((a + b).drop_last() =~= a + b.drop_last());
        assert((a + b).last() == b.last());
        assert forall|j: int| 0 <= j < b.drop_last().len() implies !at(
            #[trigger] b.drop_last()[j],
        ) by {
            assert(b.drop_last()[j] == b[j]);
        }
        assert(!at(b[b.len() - 1]));
        lemma_pieces_append(a, b.drop_last(), at);
        let front = pieces(a, at);
        let mid = front.drop_last().push(front.last() + b.drop_last());
        assert(mid.drop_last() =~= front.drop_last());
        assert((front.last() + b.drop_last()).push(b.last()) =~= front.last() + b);
    }
}

/// White space at the end changes no word.
pub proof fn lemma_words_trailing(s: Seq<char>)
    requires
        s.len() > 0,
        is_space(s.last()),
    ensures
        words_of(s) == words_of(s.drop_last()),
{
    let at = |x: char| is_space(x);
    let keep = |w: Seq<char>| w.len() > 0;
    pieces(s.drop_last(), at).lemma_filter_push(Seq::<char>::empty(), keep);
}

/// A character in lower case, if it is an ASCII letter.
pub open spec fn lower_char(c: char) -> char {
    if 'A' <= c <= 'Z' {
        (c as int + 32) as char
    } else {
        c
    }
}

/// A text with its ASCII letters in lower case.
pub open spec fn lower_text(s: Seq<char>) -> Seq<char> {
    Seq::new(s.len(), |i: int| lower_char(s[i]))
}

/// A text with its ASCII letters in lower case.
pub fn lowercase(s: &str) -> (r: String)
    ensures
        r@ == lower_text(s@),
{
    let chars = chars_of(s);
    let mut r = String::new();
    let mut i: usize = 0;
    assert(r@ =~= lower_text(s@).take(0));
    while i < chars.len()
        invariant
            i <= chars@.len(),
            chars@ == s@,
            r@ == lower_text(s@).take(i as int),
        decreases chars@.len() - i,
    {
        let c: char = chars[i];
        let l: char = if 'A' <= c && c <= 'Z' {
            (c as u8 + 32) as char
        } else {
            c
        };
        r.push(l);
        i = i + 1;
        assert(r@ =~= lower_text(s@).take(i as int));
    }
    assert(lower_text(s@).take(i as int) =~= lower_text(s@));
    r
}

/// A copy of an optional string.
pub fn copy_option(v: &Option<String>) -> (r: Option<String>)
    ensures
        r == *v,
{
    match v {
        Some(s) => Some(s.clone()),
        None => None,
    }
}

/// The view of an optional string.
pub open spec fn option_text(v: Option<String>) -> Option<Seq<char>> {
    match v {
        Some(s) => Some(s@),
        None => None,
    }
}

} // verus!
