//! Numbers from zero up as 64 bits of binary floating point hold them.
//!
//! Such a number is a multiple of the smallest of them, 2^-1074: here it is
//! the count of those steps. A result that none of them is goes to the nearest
//! one, and to the even one of two that are equally near.

use vstd::prelude::*;

use crate::natural::Natural;

verus! {

/// Two to the power of `n`.
pub open spec fn two_to(n: nat) -> nat
    decreases n,
{
    if n == 0 {
        1
    } else {
        2 * two_to((n - 1) as nat)
    }
}

/// Ten to the power of `n`.
pub open spec fn ten_to(n: nat) -> nat
    decreases n,
{
    if n == 0 {
        1
    } else {
        10 * ten_to((n - 1) as nat)
    }
}

/// The counts below this one, two to the power of 53, all stand for numbers.
pub const PRECISION: u64 = 0x20_0000_0000_0000;

/// How far apart the numbers around a count are: twice as far with every bit
/// more than 53.
pub open spec fn gap(count: nat) -> nat
    decreases count,
{
    if count < PRECISION {
        1
    } else {
        2 * gap(count / 2)
    }
}

/// The integer nearest to `n / d`, the even one of two.
pub open spec fn nearest(n: nat, d: nat) -> nat {
    let q = n / d;
    let r = n % d;
    if 2 * r < d || (2 * r == d && q % 2 == 0) {
        q
    } else {
        q + 1
    }
}

/// The number nearest to `n / d` steps.
pub open spec fn rounded(n: nat, d: nat) -> nat {
    let g = gap(n / d);
    nearest(n, d * g) * g
}

/// The number nearest to a decimal: its digits, `places` of them behind the
/// dot.
pub open spec fn decimal_value(digits: nat, places: nat) -> nat {
    rounded(digits * two_to(1074), ten_to(places))
}

/// The product of a number and an integer that is a number itself.
pub open spec fn product(a: nat, m: nat) -> nat {
    rounded(a * m, 1)
}

/// The sum of two numbers.
pub open spec fn sum(a: nat, b: nat) -> nat {
    rounded(a + b, 1)
}

/// From two to the power of 1024 on nothing is finite.
pub open spec fn is_finite(a: nat) -> bool {
    a < two_to(2098)
}

/// The integer nearest to a number, the larger one of two.
pub open spec fn nearest_whole(a: nat) -> nat {
    (a + two_to(1073)) / two_to(1074)
}

proof fn lemma_two_pos(n: nat)
    ensures
        two_to(n) >= 1,
    decreases n,
{
    if n > 0 {
        lemma_two_pos((n - 1) as nat);
    }
}

proof fn lemma_gap_pos(n: nat)
    ensures
        gap(n) >= 1,
    decreases n,
{
    if n >= PRECISION {
        lemma_gap_pos(n / 2);
    }
}

proof fn lemma_two_adds(a: nat, b: nat)
    ensures
        two_to(a + b) == two_to(a) * two_to(b),
    decreases a,
{
    if a > 0 {
        lemma_two_adds((a - 1) as nat, b);
        let x = two_to((a - 1) as nat) as int;
        let y = two_to(b) as int;
        assert(2 * (x * y) == (2 * x) * y) by (nonlinear_arith);
    } else {
        assert(1 * two_to(b) == two_to(b));
    }
}

/// Dividing in two steps.
proof fn lemma_split(a: nat, d: nat, c: nat)
    requires
        d > 0,
        c > 0,
    ensures
        d * c > 0,
        a / (d * c) == (a / d) / c,
        a % (d * c) == 0 <==> a % d == 0 && (a / d) % c == 0,
{
    let q = (a / d) as int;
    let r = (a % d) as int;
    let q2 = ((a / d) / c) as int;
    let r2 = ((a / d) % c) as int;
    let (a, d, c) = (a as int, d as int, c as int);
    vstd::arithmetic::div_mod::lemma_fundamental_div_mod(a, d);
    vstd::arithmetic::div_mod::lemma_fundamental_div_mod(q, c);
    assert(a == q2 * (d * c) + (d * r2 + r)) by (nonlinear_arith)
        requires
            a == d * q + r,
            q == c * q2 + r2,
    ;
    assert(0 <= d * r2 + r < d * c) by (nonlinear_arith)
        requires
            0 <= r < d,
            0 <= r2 < c,
    ;
    assert(d * r2 + r == 0 <==> r2 == 0 && r == 0) by (nonlinear_arith)
        requires
            0 <= r < d,
            0 <= r2,
    ;
    vstd::arithmetic::div_mod::lemma_fundamental_div_mod_converse(a, d * c, q2, d * r2 + r);
}

/// The nearest integer, from the whole halves and from whether anything is
/// left behind them.
proof fn lemma_nearest(n: nat, d: nat)
    requires
        d > 0,
    ensures
        ({
            let halves = (2 * n) / d;
            let q = halves / 2;
            nearest(n, d) == if halves % 2 == 1 && ((2 * n) % d != 0 || q % 2 == 1) {
                q + 1
            } else {
                q
            }
        }),
{
    let halves = ((2 * n) / d) as int;
    let left = ((2 * n) % d) as int;
    let q = (n / d) as int;
    let r = (n % d) as int;
    let (n, d) = (n as int, d as int);
    vstd::arithmetic::div_mod::lemma_fundamental_div_mod(2 * n, d);
    vstd::arithmetic::div_mod::lemma_fundamental_div_mod(n, d);
    let up = if 2 * r < d {
        0int
    } else {
        1
    };
    assert(2 * n == (2 * q + up) * d + (2 * r - up * d)) by (nonlinear_arith)
        requires
            n == d * q + r,
    ;
    assert(up * d == if up == 0 {
        0
    } else {
        d
    }) by (nonlinear_arith)
        requires
            up == 0 || up == 1,
    ;
    vstd::arithmetic::div_mod::lemma_fundamental_div_mod_converse(
        2 * n,
        d,
        2 * q + up,
        2 * r - up * d,
    );
}

/// Round `n / d` steps, of which `halves` are the whole half steps, and
/// `exact` says that nothing is left behind them.
fn round(halves: Natural, exact: bool, Ghost(n): Ghost<nat>, Ghost(d): Ghost<nat>) -> (r: Natural)
    requires
        d > 0,
        halves@ == (2 * n) / d,
        exact == ((2 * n) % d == 0),
    ensures
        r@ == rounded(n, d),
{
    let mut halves = halves;
    let mut exact = exact;
    let mut step = Natural::of(1);
    let ghost mut wide: nat = d;
    proof {
        lemma_split(2 * n, d, 2);
        lemma_split(2 * n, 2, d);
        assert(d * 2 == 2 * d);
        assert((2 * n) / 2 == n);
        assert(d * 1 == d && 1 * gap(n / d) == gap(n / d));
    }
    while !halves.is_below(PRECISION * 2)
        invariant
            d > 0,
            wide > 0,
            wide == d * step@,
            halves@ == (2 * n) / wide,
            exact == ((2 * n) % wide == 0),
            gap(n / d) == step@ * gap(halves@ / 2),
        decreases halves@,
    {
        let ghost had = halves@;
        let ghost by = step@;
        let bit: u32 = halves.divide(2);
        proof {
            lemma_split(2 * n, wide, 2);
            assert(had / 2 == halves@ && had % 2 == bit);
            let g = gap(halves@ / 2) as int;
            assert(by * (2 * g) == (by * 2) * g) by (nonlinear_arith);
            assert(d * (by * 2) == (d * by) * 2) by (nonlinear_arith);
            wide = wide * 2;
        }
        if bit != 0 {
            exact = false;
        }
        step.scale(2, 0);
    }
    match halves.small() {
        Some(x) => {
            let low: u64 = x as u64;
            let whole: u64 = low / 2;
            let up = low % 2 == 1 && (!exact || whole % 2 == 1);
            let count: u64 = if up {
                whole + 1
            } else {
                whole
            };
            proof {
                assert(gap(n / d) == step@) by (nonlinear_arith)
                    requires
                        gap(n / d) == step@ * gap(halves@ / 2),
                        gap(halves@ / 2) == 1,
                ;
                lemma_nearest(n, wide);
                let s = step@ as int;
                assert(count * s == s * count) by (nonlinear_arith);
            }
            step.scale(count, 0);
            step
        },
        None => step,
    }
}

/// Read a decimal.
pub fn of_decimal(digits: Natural, places: usize) -> (r: Natural)
    ensures
        r@ == decimal_value(digits@, places as nat),
{
    let ghost n = digits@;
    let mut t = digits;
    let mut i: usize = 0;
    assert(n * 1 == n);
    while i < 1075
        invariant
            i <= 1075,
            t@ == n * two_to(i as nat),
        decreases 1075 - i,
    {
        proof {
            let p = two_to(i as nat) as int;
            assert((n * p) * 2 == n * (2 * p)) by (nonlinear_arith);
        }
        t.scale(2, 0);
        i = i + 1;
    }
    let ghost all = t@;
    proof {
        let p = two_to(1074) as int;
        assert(two_to(1075) == 2 * two_to(1074));
        assert(n * (2 * p) == 2 * (n * p)) by (nonlinear_arith);
    }
    let mut exact = true;
    let mut k: usize = 0;
    while k < places
        invariant
            k <= places,
            ten_to(k as nat) >= 1,
            t@ == all / ten_to(k as nat),
            exact == (all % ten_to(k as nat) == 0),
        decreases places - k,
    {
        let ghost had = t@;
        let rest: u32 = t.divide(10);
        proof {
            lemma_split(all, ten_to(k as nat), 10);
            assert(had / 10 == t@ && had % 10 == rest);
            assert(ten_to(k as nat) * 10 == ten_to((k + 1) as nat));
        }
        if rest != 0 {
            exact = false;
        }
        k = k + 1;
    }
    round(t, exact, Ghost((n * two_to(1074)) as nat), Ghost(ten_to(places as nat)))
}

/// Multiply a number by an integer.
pub fn times(a: Natural, m: u64) -> (r: Natural)
    ensures
        r@ == product(a@, m as nat),
{
    let ghost n = (a@ * m) as nat;
    let mut t = a;
    t.scale(m, 0);
    t.scale(2, 0);
    round(t, true, Ghost(n), Ghost(1))
}

/// Add two numbers.
pub fn plus(a: Natural, b: &Natural) -> (r: Natural)
    ensures
        r@ == sum(a@, b@),
{
    let ghost n = a@ + b@;
    let mut t = a;
    t.add_to(b);
    t.scale(2, 0);
    round(t, true, Ghost(n), Ghost(1))
}

/// Halve a number `times` times.
fn halved(a: Natural, times: usize) -> (r: Natural)
    ensures
        r@ == a@ / two_to(times as nat),
{
    let ghost all = a@;
    let mut t = a;
    let mut i: usize = 0;
    assert(all / 1 == all);
    while i < times
        invariant
            i <= times,
            t@ == all / two_to(i as nat),
        decreases times - i,
    {
        let ghost had = t@;
        let _ = t.divide(2);
        proof {
            lemma_two_pos(i as nat);
            lemma_split(all, two_to(i as nat), 2);
            assert(had / 2 == t@);
            assert(two_to(i as nat) * 2 == two_to((i + 1) as nat));
        }
        i = i + 1;
    }
    t
}

/// The integer nearest to a number, or the largest of 64 bits where it is
/// larger still; none where the number is not finite.
pub fn whole(a: Natural) -> (r: Option<u64>)
    ensures
        match r {
            Some(n) => is_finite(a@) && n == if nearest_whole(a@) <= u64::MAX {
                nearest_whole(a@)
            } else {
                u64::MAX as nat
            },
            None => !is_finite(a@),
        },
{
    let ghost all = a@;
    let ghost h = two_to(1073);
    proof {
        lemma_two_pos(1073);
        lemma_split((all + h) as nat, h, 2);
        assert(h * 2 == two_to(1074));
        vstd::arithmetic::div_mod::lemma_div_plus_one(all as int, h as int);
        assert(nearest_whole(all) == (all / h + 1) / 2);
    }
    let t = halved(a, 1073);
    match t.small() {
        Some(x) => {
            proof {
                lemma_two_to_128();
                lemma_below(all, 1073, 128, x as nat);
            }
            let n: u128 = x / 2 + x % 2;
            if n <= u64::MAX as u128 {
                Some(n as u64)
            } else {
                Some(u64::MAX)
            }
        },
        None => {
            let t = halved(t, 1025);
            proof {
                lemma_two_pos(1025);
                lemma_split(all, h, two_to(1025));
                lemma_two_adds(1073, 1025);
                lemma_two_pos(2098);
                vstd::arithmetic::div_mod::lemma_fundamental_div_mod(
                    all as int,
                    two_to(2098) as int,
                );
                let q = (all / two_to(2098)) as int;
                let d = two_to(2098) as int;
                assert(q >= 1 ==> d * q >= d) by (nonlinear_arith)
                    requires
                        d >= 1,
                ;
                assert(q == 0 ==> d * q == 0) by (nonlinear_arith);
                assert(t@ == q);
            }
            if t.is_below(1) {
                Some(u64::MAX)
            } else {
                None
            }
        },
    }
}

proof fn lemma_two_to_128()
    ensures
        two_to(128) == u128::MAX + 1,
{
    assert(two_to(32) == 0x1_0000_0000) by {
        reveal_with_fuel(two_to, 33);
    }
    lemma_two_adds(32, 32);
    assert(two_to(64) == 0x1_0000_0000_0000_0000);
    lemma_two_adds(64, 64);
}

/// What fits into a few bits once the low ones are gone is finite.
proof fn lemma_below(a: nat, low: nat, bits: nat, x: nat)
    requires
        low + bits <= 2098,
        a / two_to(low) == x,
        x < two_to(bits),
    ensures
        is_finite(a),
{
    lemma_two_pos(low);
    lemma_two_adds(low, bits);
    lemma_two_grows(low + bits, 2098);
    vstd::arithmetic::div_mod::lemma_fundamental_div_mod(a as int, two_to(low) as int);
    let d = two_to(low) as int;
    let r = (a % two_to(low)) as int;
    let b = two_to(bits) as int;
    assert(d * x + r < d * b) by (nonlinear_arith)
        requires
            r < d,
            x + 1 <= b,
            d >= 1,
    ;
}

proof fn lemma_two_grows(a: nat, b: nat)
    requires
        a <= b,
    ensures
        two_to(a) <= two_to(b),
    decreases b,
{
    if a < b {
        lemma_two_grows(a, (b - 1) as nat);
    }
}

/// How far apart the numbers around 53 bits followed by zeros are: no further
/// than the zeros go.
proof fn lemma_gap_divides(m: nat, e: nat) -> (k: nat)
    requires
        m < PRECISION,
    ensures
        two_to(e) == k * gap((m * two_to(e)) as nat),
    decreases e,
{
    let n = (m * two_to(e)) as nat;
    if n < PRECISION {
        assert(two_to(e) * 1 == two_to(e));
        two_to(e)
    } else {
        assert(e > 0) by {
            if e == 0 {
                assert(m * 1 == m);
            }
        }
        let p = two_to((e - 1) as nat) as int;
        assert(m * (2 * p) == 2 * (m * p)) by (nonlinear_arith);
        assert(m * p >= 0) by (nonlinear_arith)
            requires
                m >= 0,
                p >= 0,
        ;
        let k = lemma_gap_divides(m, (e - 1) as nat);
        assert(n / 2 == m * p);
        let g = gap(n / 2) as int;
        assert(2 * (k * g) == k * (2 * g)) by (nonlinear_arith);
        k
    }
}

/// An integer of at most 53 bits, and as many zeros behind it as there may be,
/// is a number: nothing is rounded.
pub proof fn lemma_short_is_exact(m: nat, e: nat)
    requires
        m <= PRECISION,
    ensures
        rounded((m * two_to(e)) as nat, 1) == m * two_to(e),
    decreases m,
{
    if m == PRECISION {
        let p = two_to(e) as int;
        assert(two_to(e + 1) == 2 * two_to(e));
        assert(m * p == (m / 2) * (2 * p)) by (nonlinear_arith)
            requires
                m == 2 * (m / 2),
        ;
        lemma_short_is_exact(m / 2, e + 1);
    } else {
        let n = (m * two_to(e)) as nat;
        let k = lemma_gap_divides(m, e);
        let g = gap(n);
        lemma_gap_pos(n);
        assert(n == (m * k) * g + 0) by (nonlinear_arith)
            requires
                n == m * two_to(e),
                two_to(e) == k * g,
        ;
        assert(m * k >= 0) by (nonlinear_arith)
            requires
                m >= 0,
                k >= 0,
        ;
        vstd::arithmetic::div_mod::lemma_fundamental_div_mod_converse(
            n as int,
            g as int,
            (m * k) as int,
            0,
        );
        assert(1 * g == g);
    }
}

/// Every integer up to two to the power of 53 is a number, and the nearest
/// integer to it.
pub proof fn lemma_integers_read_back(m: nat)
    requires
        m <= PRECISION,
    ensures
        is_finite((m * two_to(1074)) as nat),
        nearest_whole((m * two_to(1074)) as nat) == m,
{
    let one = two_to(1074);
    let half = two_to(1073);
    lemma_two_pos(1073);
    assert(one == 2 * half);
    let a = (m * one) as nat;
    vstd::arithmetic::div_mod::lemma_fundamental_div_mod_converse(
        (a + half) as int,
        one as int,
        m as int,
        half as int,
    );
    vstd::arithmetic::div_mod::lemma_fundamental_div_mod_converse(
        a as int,
        one as int,
        m as int,
        0,
    );
    assert(two_to(54) == 0x40_0000_0000_0000) by {
        reveal_with_fuel(two_to, 55);
    }
    lemma_below(a, 1074, 54, m);
}

} // verus!
