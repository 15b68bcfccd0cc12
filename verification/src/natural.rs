//! Natural numbers of any size, in limbs of 32 bits.

use vstd::prelude::*;

verus! {

/// What one limb can tell apart.
pub const LIMB: u64 = 0x1_0000_0000;

/// What a limb in the `n`th place counts.
pub open spec fn weight(n: nat) -> nat
    decreases n,
{
    if n == 0 {
        1
    } else {
        LIMB as nat * weight((n - 1) as nat)
    }
}

/// What the limbs from the `i`th on stand for, the lowest first.
pub open spec fn value_from(limbs: Seq<u32>, i: int) -> nat
    decreases limbs.len() - i,
{
    if i >= limbs.len() {
        0
    } else {
        limbs[i] as nat + LIMB as nat * value_from(limbs, i + 1)
    }
}

/// A natural number; limbs of zero may stand at the top.
#[derive(Debug)]
pub struct Natural {
    pub limbs: Vec<u32>,
}

impl View for Natural {
    type V = nat;

    open spec fn view(&self) -> nat {
        value_from(self.limbs@, 0)
    }
}

proof fn lemma_push(limbs: Seq<u32>, x: u32, i: int)
    requires
        0 <= i <= limbs.len(),
    ensures
        value_from(limbs.push(x), i) == value_from(limbs, i) + x * weight((limbs.len() - i) as nat),
    decreases limbs.len() - i,
{
    if i < limbs.len() {
        lemma_push(limbs, x, i + 1);
        let a = value_from(limbs, i + 1) as int;
        let w = weight((limbs.len() - i - 1) as nat) as int;
        assert(LIMB * (a + x * w) == LIMB * a + x * (LIMB * w)) by (nonlinear_arith);
    } else {
        assert(value_from(limbs.push(x), i + 1) == 0);
        assert(x * weight(0) == x) by (nonlinear_arith)
            requires
                weight(0) == 1,
        ;
    }
}

proof fn lemma_same(a: Seq<u32>, b: Seq<u32>, i: int)
    requires
        0 <= i,
        a.len() == b.len(),
        forall|j: int| i <= j < a.len() ==> a[j] == b[j],
    ensures
        value_from(a, i) == value_from(b, i),
    decreases a.len() - i,
{
    if i < a.len() {
        lemma_same(a, b, i + 1);
    }
}

/// A limb counts at least what its place does.
proof fn lemma_at_least(limbs: Seq<u32>, i: int, k: int)
    requires
        0 <= i <= k < limbs.len(),
    ensures
        value_from(limbs, i) >= limbs[k] * weight((k - i) as nat),
    decreases k - i,
{
    let x = limbs[k] as int;
    if i < k {
        lemma_at_least(limbs, i + 1, k);
        let v = value_from(limbs, i + 1) as int;
        let w = weight((k - i - 1) as nat) as int;
        assert(LIMB * v >= x * (LIMB * w)) by (nonlinear_arith)
            requires
                v >= x * w,
        ;
    } else {
        assert(x * weight(0) == x) by (nonlinear_arith)
            requires
                weight(0) == 1,
        ;
    }
}

/// One limb of a product or a sum goes out, the rest is carried.
proof fn lemma_carry(w: int, low: int, carry: int, rest: int)
    ensures
        w * (low + LIMB * carry + LIMB * rest) == low * w + (LIMB * w) * (carry + rest),
{
    assert(w * (low + LIMB * carry + LIMB * rest) == low * w + (LIMB * w) * (carry + rest))
        by (nonlinear_arith);
}

impl Natural {
    pub fn of(n: u64) -> (r: Natural)
        ensures
            r@ == n,
    {
        let mut r = Natural { limbs: Vec::new() };
        r.scale(1, n);
        r
    }

    /// Multiply by `m`, then add `c`.
    pub fn scale(&mut self, m: u64, c: u64)
        ensures
            final(self)@ == old(self)@ * m + c,
    {
        let ghost s = self.limbs@;
        let ghost target = value_from(s, 0) * m + c;
        let mut out: Vec<u32> = Vec::new();
        let mut carry: u64 = c;
        let mut i: usize = 0;
        let len: usize = self.limbs.len();
        proof {
            let v = value_from(s, 0) as int;
            assert(0 + weight(0) * (carry + m * v) == v * m + c) by (nonlinear_arith)
                requires
                    weight(0) == 1,
                    carry == c,
            ;
        }
        while i < len
            invariant
                i <= len,
                len == s.len(),
                self.limbs@ == s,
                out@.len() == i,
                value_from(out@, 0) + weight(i as nat) * (carry + m * value_from(s, i as int))
                    == target,
            decreases len - i,
        {
            let limb: u32 = self.limbs[i];
            proof {
                assert(limb * m + carry <= 0xffff_ffff * 0xffff_ffff_ffff_ffff
                    + 0xffff_ffff_ffff_ffff) by (nonlinear_arith)
                    requires
                        0 <= limb <= 0xffff_ffff,
                        0 <= m <= 0xffff_ffff_ffff_ffff,
                        carry <= 0xffff_ffff_ffff_ffff,
                ;
                assert(limb * m >= 0) by (nonlinear_arith)
                    requires
                        limb >= 0,
                        m >= 0,
                ;
            }
            let x: u128 = limb as u128 * m as u128 + carry as u128;
            let low: u32 = (x % LIMB as u128) as u32;
            let high: u64 = (x / LIMB as u128) as u64;
            proof {
                let rest = value_from(s, i + 1) as int;
                let w = weight(i as nat) as int;
                assert(x <= 0xffff_ffff_ffff_ffff_0000_0000);
                vstd::arithmetic::div_mod::lemma_fundamental_div_mod(x as int, LIMB as int);
                let above = x as int / LIMB as int;
                assert(above <= 0xffff_ffff_ffff_ffff) by (nonlinear_arith)
                    requires
                        LIMB * above <= 0xffff_ffff_ffff_ffff_0000_0000,
                        LIMB == 0x1_0000_0000,
                ;
                assert(carry + m * (limb + LIMB * rest) == low + LIMB * high + LIMB * (m * rest))
                    by (nonlinear_arith)
                    requires
                        limb * m + carry == low + LIMB * high,
                ;
                lemma_carry(w, low as int, high as int, m * rest);
                lemma_push(out@, low, 0);
            }
            carry = high;
            out.push(low);
            i = i + 1;
        }
        assert(m * value_from(s, len as int) == 0) by (nonlinear_arith)
            requires
                value_from(s, len as int) == 0,
        ;
        while carry > 0
            invariant
                value_from(out@, 0) + weight(out@.len()) * carry == target,
            decreases carry,
        {
            let low: u32 = (carry % LIMB) as u32;
            let high: u64 = carry / LIMB;
            proof {
                let w = weight(out@.len()) as int;
                lemma_carry(w, low as int, high as int, 0);
                lemma_push(out@, low, 0);
            }
            carry = high;
            out.push(low);
        }
        assert(weight(out@.len()) * carry == 0) by (nonlinear_arith)
            requires
                carry == 0,
        ;
        self.limbs = out;
    }

    /// Divide by `d`; the remainder comes back.
    pub fn divide(&mut self, d: u32) -> (rest: u32)
        requires
            d > 0,
        ensures
            rest < d,
            old(self)@ == d * final(self)@ + rest,
    {
        let ghost s = self.limbs@;
        let len: usize = self.limbs.len();
        let mut rest: u32 = 0;
        let mut i: usize = len;
        assert(d * value_from(s, len as int) == 0) by (nonlinear_arith)
            requires
                value_from(s, len as int) == 0,
        ;
        while i > 0
            invariant
                i <= len,
                len == s.len(),
                self.limbs@.len() == len,
                rest < d,
                forall|j: int| 0 <= j < i ==> self.limbs@[j] == s[j],
                value_from(s, i as int) == d * value_from(self.limbs@, i as int) + rest,
            decreases i,
        {
            i = i - 1;
            let ghost before = self.limbs@;
            let limb: u32 = self.limbs[i];
            let x: u64 = rest as u64 * LIMB + limb as u64;
            let part: u64 = x / d as u64;
            let left: u64 = x % d as u64;
            proof {
                let d = d as int;
                vstd::arithmetic::div_mod::lemma_fundamental_div_mod(x as int, d);
                assert(part < LIMB) by (nonlinear_arith)
                    requires
                        x == d * part + left,
                        x == rest * LIMB + limb,
                        rest < d,
                        limb < LIMB,
                        left >= 0,
                ;
            }
            self.limbs.set(i, part as u32);
            proof {
                let d = d as int;
                let q = value_from(before, i + 1) as int;
                lemma_same(before, self.limbs@, i + 1);
                assert(limb + LIMB * (d * q + rest) == d * (part + LIMB * q) + left)
                    by (nonlinear_arith)
                    requires
                        rest * LIMB + limb == d * part + left,
                ;
            }
            rest = left as u32;
        }
        rest
    }

    /// Add another number.
    pub fn add_to(&mut self, other: &Natural)
        ensures
            final(self)@ == old(self)@ + other@,
    {
        let ghost s = self.limbs@;
        let ghost t = other.limbs@;
        let ghost target = value_from(s, 0) + value_from(t, 0);
        let mut out: Vec<u32> = Vec::new();
        let mut carry: u64 = 0;
        let mut i: usize = 0;
        assert(weight(0) * target == target) by (nonlinear_arith)
            requires
                weight(0) == 1,
        ;
        while i < self.limbs.len() || i < other.limbs.len()
            invariant
                self.limbs@ == s,
                other.limbs@ == t,
                out@.len() == i,
                carry <= 1,
                i <= s.len() || i <= t.len(),
                value_from(out@, 0) + weight(i as nat) * (carry + value_from(s, i as int)
                    + value_from(t, i as int)) == target,
            decreases s.len() + t.len() - i,
        {
            let a: u64 = if i < self.limbs.len() {
                self.limbs[i] as u64
            } else {
                0
            };
            let b: u64 = if i < other.limbs.len() {
                other.limbs[i] as u64
            } else {
                0
            };
            let x: u64 = a + b + carry;
            let low: u32 = (x % LIMB) as u32;
            let high: u64 = x / LIMB;
            proof {
                let w = weight(i as nat) as int;
                let rest = value_from(s, i + 1) + value_from(t, i + 1);
                assert(value_from(s, i as int) == a + LIMB * value_from(s, i + 1));
                assert(value_from(t, i as int) == b + LIMB * value_from(t, i + 1));
                lemma_carry(w, low as int, high as int, rest as int);
                lemma_push(out@, low, 0);
            }
            carry = high;
            out.push(low);
            i = i + 1;
        }
        if carry > 0 {
            proof {
                lemma_push(out@, 1, 0);
                let w = weight(i as nat) as int;
                assert(w * 1 == 1 * w) by (nonlinear_arith);
            }
            out.push(1);
        } else {
            assert(weight(i as nat) * 0 == 0) by (nonlinear_arith);
        }
        self.limbs = out;
    }

    /// The number itself where 128 bits hold it.
    pub fn small(&self) -> (r: Option<u128>)
        ensures
            match r {
                Some(n) => self@ == n,
                None => self@ > u128::MAX,
            },
    {
        let ghost s = self.limbs@;
        proof {
            reveal_with_fuel(weight, 5);
            reveal_with_fuel(value_from, 5);
        }
        let len: usize = self.limbs.len();
        let mut i: usize = len;
        while i > 4
            invariant
                i <= len,
                len == s.len(),
                self.limbs@ == s,
                value_from(s, i as int) == 0,
            decreases i,
        {
            if self.limbs[i - 1] != 0 {
                proof {
                    lemma_at_least(s, 0, i - 1);
                    lemma_weights_grow(4, (i - 1) as nat);
                    let x = s[i - 1] as int;
                    let w = weight((i - 1) as nat) as int;
                    assert(x * w >= w) by (nonlinear_arith)
                        requires
                            x >= 1,
                            w >= 0,
                    ;
                    assert(weight(4) == 0x1_0000_0000_0000_0000_0000_0000_0000_0000) by {
                        reveal_with_fuel(weight, 5);
                    }
                }
                return None;
            }
            i = i - 1;
        }
        let a: u128 = self.limb(0) as u128;
        let b: u128 = self.limb(1) as u128;
        let c: u128 = self.limb(2) as u128;
        let d: u128 = self.limb(3) as u128;
        assert(value_from(s, 4) == 0);
        assert(value_from(s, 3) == d);
        assert(value_from(s, 2) == c + LIMB * d);
        assert(value_from(s, 1) == b + LIMB * (c + LIMB * d));
        assert(value_from(s, 0) == a + LIMB * (b + LIMB * (c + LIMB * d)));
        Some(
            a + LIMB as u128 * (b + LIMB as u128 * (c + LIMB as u128 * d)),
        )
    }

    /// Is this less than `n`?
    pub fn is_below(&self, n: u64) -> (r: bool)
        ensures
            r == (self@ < n),
    {
        match self.small() {
            Some(x) => x < n as u128,
            None => false,
        }
    }

    fn limb(&self, i: usize) -> (r: u32)
        ensures
            r == if i < self.limbs@.len() {
                self.limbs@[i as int]
            } else {
                0
            },
    {
        if i < self.limbs.len() {
            self.limbs[i]
        } else {
            0
        }
    }
}

proof fn lemma_weights_grow(a: nat, b: nat)
    requires
        a <= b,
    ensures
        1 <= weight(a) <= weight(b),
    decreases b,
{
    if a < b {
        lemma_weights_grow(a, (b - 1) as nat);
    } else if a > 0 {
        lemma_weights_grow((a - 1) as nat, (a - 1) as nat);
    }
}

} // verus!
