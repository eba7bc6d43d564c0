//! 256-bit unsigned and signed (two's-complement) integers.
//!
//! Balance deltas are signed 256-bit values; all arithmetic is checked, and
//! callers surface an overflow as a fatal per-block error.

use vstd::prelude::*;

verus! {

/// Unsigned 256-bit integer, four 64-bit limbs, least significant first.
#[derive(Clone, Copy, PartialEq, Eq, Structural, Hash, Debug)]
pub struct U256 {
    pub l0: u64,
    pub l1: u64,
    pub l2: u64,
    pub l3: u64,
}

/// Signed 256-bit integer: the raw bits of a `U256`, read as two's complement.
#[derive(Clone, Copy, PartialEq, Eq, Structural, Hash, Debug)]
pub struct I256 {
    pub raw: U256,
}

pub open spec fn pow64() -> nat {
    0x1_0000_0000_0000_0000nat
}

pub open spec fn pow128() -> nat {
    0x1_0000_0000_0000_0000_0000_0000_0000_0000nat
}

pub open spec fn pow192() -> nat {
    0x1_0000_0000_0000_0000_0000_0000_0000_0000_0000_0000_0000_0000nat
}

pub open spec fn pow255() -> nat {
    0x8000_0000_0000_0000_0000_0000_0000_0000_0000_0000_0000_0000_0000_0000_0000_0000nat
}

pub open spec fn pow256() -> nat {
    0x1_0000_0000_0000_0000_0000_0000_0000_0000_0000_0000_0000_0000_0000_0000_0000_0000nat
}

/// The unsigned value a `U256` stands for.
pub open spec fn u256_val(a: U256) -> nat {
    (a.l0 + a.l1 * pow64() + a.l2 * pow128() + a.l3 * pow192()) as nat
}

/// The signed value an `I256` stands for: its raw bits read as two's complement.
pub open spec fn i256_val(a: I256) -> int {
    if u256_val(a.raw) >= pow255() {
        u256_val(a.raw) - pow256()
    } else {
        u256_val(a.raw) as int
    }
}

pub proof fn lemma_u256_val_bound(a: U256)
    ensures
        u256_val(a) < pow256(),
{
}

pub proof fn lemma_i256_val_bound(a: I256)
    ensures
        -(pow255() as int) <= i256_val(a) < pow255(),
{
}

impl U256 {
    pub open spec fn spec_zero() -> U256 {
        U256 { l0: 0, l1: 0, l2: 0, l3: 0 }
    }

    pub fn zero() -> (r: U256)
        ensures
            r == U256::spec_zero(),
            u256_val(r) == 0,
    {
        U256 { l0: 0, l1: 0, l2: 0, l3: 0 }
    }

    pub fn from_u64(v: u64) -> (r: U256)
        ensures
            u256_val(r) == v,
    {
        U256 { l0: v, l1: 0, l2: 0, l3: 0 }
    }

    pub fn from_u128(v: u128) -> (r: U256)
        ensures
            u256_val(r) == v,
    {
        let lo: u64 = (v % 0x1_0000_0000_0000_0000u128) as u64;
        let hi: u64 = (v / 0x1_0000_0000_0000_0000u128) as u64;
        U256 { l0: lo, l1: hi, l2: 0, l3: 0 }
    }

    pub fn is_zero(&self) -> (r: bool)
        ensures
            r == (u256_val(*self) == 0),
    {
        self.l0 == 0 && self.l1 == 0 && self.l2 == 0 && self.l3 == 0
    }

    /// Strictly-less comparison of the unsigned values.
    pub fn lt(&self, other: &U256) -> (r: bool)
        ensures
            r == (u256_val(*self) < u256_val(*other)),
    {
        if self.l3 != other.l3 {
            self.l3 < other.l3
        } else if self.l2 != other.l2 {
            self.l2 < other.l2
        } else if self.l1 != other.l1 {
            self.l1 < other.l1
        } else {
            self.l0 < other.l0
        }
    }
}

/// One limb of an addition: `x + y + c` split into a limb and a carry.
fn add64(x: u64, y: u64, c: u64) -> (r: (u64, u64))
    requires
        c <= 1,
    ensures
        r.0 + r.1 * pow64() == x + y + c,
        r.1 <= 1,
{
    let s: u128 = x as u128 + y as u128 + c as u128;
    let lo: u64 = (s % 0x1_0000_0000_0000_0000u128) as u64;
    let hi: u64 = (s / 0x1_0000_0000_0000_0000u128) as u64;
    (lo, hi)
}

/// One limb of a subtraction: `x - y - b` split into a limb and a borrow.
fn sub64(x: u64, y: u64, b: u64) -> (r: (u64, u64))
    requires
        b <= 1,
    ensures
        r.0 - r.1 * pow64() == x - y - b,
        r.1 <= 1,
{
    let d: u128 = (x as u128 + 0x1_0000_0000_0000_0000u128) - y as u128 - b as u128;
    let lo: u64 = (d % 0x1_0000_0000_0000_0000u128) as u64;
    let borrow: u64 = if d < 0x1_0000_0000_0000_0000u128 {
        1
    } else {
        0
    };
    (lo, borrow)
}

/// Sum modulo 2^256, with the carry out.
pub fn u256_add_carry(a: &U256, b: &U256) -> (r: (U256, bool))
    ensures
        u256_val(r.0) + (if r.1 {
            pow256() as int
        } else {
            0
        }) == u256_val(*a) + u256_val(*b),
{
    let (s0, c0) = add64(a.l0, b.l0, 0);
    let (s1, c1) = add64(a.l1, b.l1, c0);
    let (s2, c2) = add64(a.l2, b.l2, c1);
    let (s3, c3) = add64(a.l3, b.l3, c2);
    (U256 { l0: s0, l1: s1, l2: s2, l3: s3 }, c3 == 1)
}

/// Difference modulo 2^256, with the borrow out.
pub fn u256_sub_borrow(a: &U256, b: &U256) -> (r: (U256, bool))
    ensures
        u256_val(r.0) - (if r.1 {
            pow256() as int
        } else {
            0
        }) == u256_val(*a) - u256_val(*b),
{
    let (d0, b0) = sub64(a.l0, b.l0, 0);
    let (d1, b1) = sub64(a.l1, b.l1, b0);
    let (d2, b2) = sub64(a.l2, b.l2, b1);
    let (d3, b3) = sub64(a.l3, b.l3, b2);
    (U256 { l0: d0, l1: d1, l2: d2, l3: d3 }, b3 == 1)
}

/// Checked unsigned addition: `None` exactly on overflow.
pub fn u256_checked_add(a: &U256, b: &U256) -> (r: Option<U256>)
    ensures
        match r {
            Some(s) => u256_val(s) == u256_val(*a) + u256_val(*b),
            None => u256_val(*a) + u256_val(*b) >= pow256(),
        },
{
    let (s, carry) = u256_add_carry(a, b);
    if carry {
        None
    } else {
        Some(s)
    }
}

impl I256 {
    pub fn zero() -> (r: I256)
        ensures
            i256_val(r) == 0,
    {
        I256 { raw: U256::zero() }
    }

    /// Reinterpret unsigned bits as a signed value (two's complement).
    pub fn from_raw(u: U256) -> (r: I256)
        ensures
            r.raw == u,
            i256_val(r) == (if u256_val(u) >= pow255() {
                u256_val(u) - pow256()
            } else {
                u256_val(u) as int
            }),
    {
        I256 { raw: u }
    }

    pub fn into_raw(self) -> (r: U256)
        ensures
            r == self.raw,
    {
        self.raw
    }

    pub fn is_zero(&self) -> (r: bool)
        ensures
            r == (i256_val(*self) == 0),
    {
        self.raw.is_zero()
    }

    pub fn is_negative(&self) -> (r: bool)
        ensures
            r == (i256_val(*self) < 0),
    {
        self.raw.l3 >= 0x8000_0000_0000_0000u64
    }

    pub fn is_positive(&self) -> (r: bool)
        ensures
            r == (i256_val(*self) > 0),
    {
        !self.is_negative() && !self.is_zero()
    }
}

/// Checked signed addition: `None` exactly when the sum leaves the 256-bit
/// two's-complement range.
pub fn i256_checked_add(a: &I256, b: &I256) -> (r: Option<I256>)
    ensures
        match r {
            Some(s) => i256_val(s) == i256_val(*a) + i256_val(*b),
            None => !(-(pow255() as int) <= i256_val(*a) + i256_val(*b) < pow255()),
        },
{
    let (s, _carry) = u256_add_carry(&a.raw, &b.raw);
    let neg_a = a.is_negative();
    let neg_b = b.is_negative();
    let neg_s = s.l3 >= 0x8000_0000_0000_0000u64;
    let result = I256 { raw: s };
    proof {
        lemma_i256_add_cases(*a, *b, s);
    }
    if neg_a == neg_b && neg_s != neg_a {
        None
    } else {
        Some(result)
    }
}

/// Checked signed subtraction: `None` exactly when the difference leaves the
/// 256-bit two's-complement range.
pub fn i256_checked_sub(a: &I256, b: &I256) -> (r: Option<I256>)
    ensures
        match r {
            Some(s) => i256_val(s) == i256_val(*a) - i256_val(*b),
            None => !(-(pow255() as int) <= i256_val(*a) - i256_val(*b) < pow255()),
        },
{
    let (d, _borrow) = u256_sub_borrow(&a.raw, &b.raw);
    let neg_a = a.is_negative();
    let neg_b = b.is_negative();
    let neg_d = d.l3 >= 0x8000_0000_0000_0000u64;
    let result = I256 { raw: d };
    proof {
        lemma_i256_sub_cases(*a, *b, d);
    }
    if neg_a != neg_b && neg_d != neg_a {
        None
    } else {
        Some(result)
    }
}

/// The sign of a raw value is its top bit.
proof fn lemma_sign_bit(u: U256)
    ensures
        (u.l3 >= 0x8000_0000_0000_0000u64) == (u256_val(u) >= pow255()),
{
}

/// Relates the wrapped sum of the raw bits to the signed sum.
proof fn lemma_i256_add_cases(a: I256, b: I256, s: U256)
    requires
        u256_val(s) == u256_val(a.raw) + u256_val(b.raw) || u256_val(s) + pow256()
            == u256_val(a.raw) + u256_val(b.raw),
    ensures
        ((u256_val(a.raw) >= pow255()) == (u256_val(b.raw) >= pow255()) && (u256_val(s)
            >= pow255()) != (u256_val(a.raw) >= pow255())) == !(-(pow255() as int) <= i256_val(a)
            + i256_val(b) < pow255()),
        (-(pow255() as int) <= i256_val(a) + i256_val(b) < pow255()) ==> i256_val(I256 { raw: s })
            == i256_val(a) + i256_val(b),
{
    lemma_sign_bit(a.raw);
    lemma_sign_bit(b.raw);
    lemma_sign_bit(s);
}

/// Relates the wrapped difference of the raw bits to the signed difference.
proof fn lemma_i256_sub_cases(a: I256, b: I256, d: U256)
    requires
        u256_val(d) == u256_val(a.raw) - u256_val(b.raw) || u256_val(d) - pow256()
            == u256_val(a.raw) - u256_val(b.raw),
    ensures
        ((u256_val(a.raw) >= pow255()) != (u256_val(b.raw) >= pow255()) && (u256_val(d)
            >= pow255()) != (u256_val(a.raw) >= pow255())) == !(-(pow255() as int) <= i256_val(a)
            - i256_val(b) < pow255()),
        (-(pow255() as int) <= i256_val(a) - i256_val(b) < pow255()) ==> i256_val(I256 { raw: d })
            == i256_val(a) - i256_val(b),
{
    lemma_sign_bit(a.raw);
    lemma_sign_bit(b.raw);
    lemma_sign_bit(d);
}

} // verus!

verus! {

/// One limb of a multiply-by-small: `l * m + c` split into a limb and a carry.
fn mul64_step(l: u64, m: u64, c: u64) -> (r: (u64, u64))
    ensures
        r.0 + r.1 * pow64() == l * m + c,
{
    proof {
        assert(l * m <= 0xFFFF_FFFF_FFFF_FFFFu64 * 0xFFFF_FFFF_FFFF_FFFFu64) by (nonlinear_arith)
            requires
                l <= 0xFFFF_FFFF_FFFF_FFFFu64,
                m <= 0xFFFF_FFFF_FFFF_FFFFu64,
        ;
    }
    let t: u128 = l as u128 * m as u128 + c as u128;
    let lo: u64 = (t % 0x1_0000_0000_0000_0000u128) as u64;
    let hi: u64 = (t / 0x1_0000_0000_0000_0000u128) as u64;
    (lo, hi)
}

/// Product with a 64-bit factor, plus a 64-bit addend, with the carry out:
/// `r.0 + r.1 * 2^256 == a * m + add`.
pub fn u256_mul_add_u64(a: &U256, m: u64, add: u64) -> (r: (U256, u64))
    ensures
        u256_val(r.0) + r.1 * pow256() == u256_val(*a) * m + add,
{
    let (p0, c0) = mul64_step(a.l0, m, add);
    let (p1, c1) = mul64_step(a.l1, m, c0);
    let (p2, c2) = mul64_step(a.l2, m, c1);
    let (p3, c3) = mul64_step(a.l3, m, c2);
    let result = U256 { l0: p0, l1: p1, l2: p2, l3: p3 };
    proof {
        let x0 = a.l0 as int;
        let x1 = a.l1 as int;
        let x2 = a.l2 as int;
        let x3 = a.l3 as int;
        let mi = m as int;
        assert((x0 + x1 * pow64() + x2 * pow128() + x3 * pow192()) * mi == x0 * mi + (x1 * mi)
            * pow64() + (x2 * mi) * pow128() + (x3 * mi) * pow192()) by (nonlinear_arith);
    }
    (result, c3)
}

/// Checked product with a 64-bit factor: `None` exactly on overflow.
pub fn u256_checked_mul_u64(a: &U256, m: u64) -> (r: Option<U256>)
    ensures
        match r {
            Some(p) => u256_val(p) == u256_val(*a) * m,
            None => u256_val(*a) * m >= pow256(),
        },
{
    let (p, carry) = u256_mul_add_u64(a, m, 0);
    if carry == 0 {
        Some(p)
    } else {
        proof {
            assert(u256_val(*a) * m >= pow256()) by {
                assert(carry * pow256() >= pow256());
            };
        }
        None
    }
}

} // verus!

verus! {

/// One limb of a division by a 64-bit divisor.
fn div64_step(rem: u64, limb: u64, d: u64) -> (r: (u64, u64))
    requires
        1 <= d,
        rem < d,
    ensures
        r.0 * d + r.1 == rem * pow64() + limb,
        r.1 < d,
{
    let cur: u128 = (rem as u128) * 0x1_0000_0000_0000_0000u128 + limb as u128;
    let q: u128 = cur / (d as u128);
    let m: u128 = cur % (d as u128);
    proof {
        vstd::arithmetic::div_mod::lemma_fundamental_div_mod(cur as int, d as int);
        assert(q < 0x1_0000_0000_0000_0000u128) by (nonlinear_arith)
            requires
                cur == d * q + m,
                0 <= m,
                cur < d * 0x1_0000_0000_0000_0000u128,
                1 <= d,
        ;
        assert(m < d);
        assert(q * d + m == rem * pow64() + limb) by (nonlinear_arith)
            requires
                cur == d * q + m,
                cur == rem * 0x1_0000_0000_0000_0000u128 + limb,
        ;
    }
    ((q as u64), (m as u64))
}

/// Quotient and remainder of a division by a 64-bit divisor.
pub fn u256_div_rem_u64(a: &U256, d: u64) -> (r: (U256, u64))
    requires
        1 <= d,
    ensures
        u256_val(r.0) * d + r.1 == u256_val(*a),
        r.1 < d,
{
    let (q3, r3) = div64_step(0, a.l3, d);
    let (q2, r2) = div64_step(r3, a.l2, d);
    let (q1, r1) = div64_step(r2, a.l1, d);
    let (q0, r0) = div64_step(r1, a.l0, d);
    let quot = U256 { l0: q0, l1: q1, l2: q2, l3: q3 };
    proof {
        let y0 = q0 as int;
        let y1 = q1 as int;
        let y2 = q2 as int;
        let y3 = q3 as int;
        let di = d as int;
        assert((y0 + y1 * pow64() + y2 * pow128() + y3 * pow192()) * di == y0 * di + (y1 * di)
            * pow64() + (y2 * di) * pow128() + (y3 * di) * pow192()) by (nonlinear_arith);
    }
    (quot, r0)
}

/// Split a signed value into its sign and absolute value.
pub fn i256_sign_and_abs(a: &I256) -> (r: (bool, U256))
    ensures
        r.0 == (i256_val(*a) < 0),
        u256_val(r.1) == (if i256_val(*a) < 0 {
            -i256_val(*a)
        } else {
            i256_val(*a)
        }),
{
    if a.is_negative() {
        let zero = U256::zero();
        let (d, _borrow) = u256_sub_borrow(&zero, &a.raw);
        (true, d)
    } else {
        (false, a.raw)
    }
}

} // verus!
