//! IEEE 754 numbers held by their bit patterns.
//!
//! [`F32`] and [`F64`] are the binary32 and binary64 formats as plain integers.
//! What only depends on the format (is a value missing, which of two values is
//! smaller) is computed here on the bits and proved against the number that the
//! bits denote. Arithmetic is a parameter: every function that adds, divides or
//! takes a logarithm is generic over an [`Arith`], and its contract says which
//! operations are applied to which operands, in which order. Nothing is assumed of
//! an [`Arith`], so what is proved holds whatever rounding it uses.

use vstd::prelude::*;
use vstd::arithmetic::power2::{lemma_pow2_pos, lemma_pow2_unfold, lemma_pow2_adds, pow2};

verus! {

/// A binary32 number, by its bits.
#[derive(Clone, Copy, Debug, PartialEq, Eq, Structural)]
pub struct F32 {
    pub bits: u32,
}

/// A binary64 number, by its bits.
#[derive(Clone, Copy, Debug, PartialEq, Eq, Structural)]
pub struct F64 {
    pub bits: u64,
}

/// The number that a magnitude (the bits without the sign) denotes, counted in units
/// of the smallest positive number of the format. `base` is two to the number of
/// fraction bits. The infinity of the format comes out above every finite number.
pub open spec fn scaled(magnitude: int, base: int) -> int {
    let e = magnitude / base;
    let f = magnitude % base;
    if e <= 0 {
        f
    } else {
        (base + f) * pow2((e - 1) as nat) as int
    }
}

impl F32 {
    pub open spec fn negative(self) -> bool {
        self.bits >= 0x8000_0000
    }

    /// The bits without the sign.
    pub open spec fn magnitude(self) -> int {
        if self.negative() {
            self.bits - 0x8000_0000
        } else {
            self.bits as int
        }
    }

    pub open spec fn spec_is_nan(self) -> bool {
        self.magnitude() > 0x7f80_0000
    }

    pub open spec fn spec_is_finite(self) -> bool {
        self.magnitude() < 0x7f80_0000
    }

    /// Position of the number in the order of all numbers of the format.
    pub open spec fn rank(self) -> int {
        if self.negative() {
            -self.magnitude()
        } else {
            self.magnitude()
        }
    }

    /// The number itself, in units of two to the minus 149.
    pub open spec fn units(self) -> int {
        if self.negative() {
            -scaled(self.magnitude(), 0x80_0000)
        } else {
            scaled(self.magnitude(), 0x80_0000)
        }
    }

    /// `self < other` as numbers; false where either is not a number.
    pub open spec fn lt(self, other: F32) -> bool {
        !self.spec_is_nan() && !other.spec_is_nan() && self.rank() < other.rank()
    }

    /// `self <= other` as numbers; false where either is not a number.
    pub open spec fn le(self, other: F32) -> bool {
        !self.spec_is_nan() && !other.spec_is_nan() && self.rank() <= other.rank()
    }

    /// `self == other` as numbers (the two zeros are equal); false where either is not
    /// a number.
    pub open spec fn same(self, other: F32) -> bool {
        !self.spec_is_nan() && !other.spec_is_nan() && self.rank() == other.rank()
    }

    /// The rank, moved up to be nonnegative.
    pub open spec fn key(self) -> int {
        self.rank() + 0x8000_0000
    }

    #[inline]
    #[verifier::when_used_as_spec(spec_is_nan)]
    pub fn is_nan(self) -> (r: bool)
        ensures
            r == self.spec_is_nan(),
    {
        let m: u32 = if self.bits >= 0x8000_0000 {
            self.bits - 0x8000_0000
        } else {
            self.bits
        };
        m > 0x7f80_0000
    }

    #[inline]
    #[verifier::when_used_as_spec(spec_is_finite)]
    pub fn is_finite(self) -> (r: bool)
        ensures
            r == self.spec_is_finite(),
    {
        let m: u32 = if self.bits >= 0x8000_0000 {
            self.bits - 0x8000_0000
        } else {
            self.bits
        };
        m < 0x7f80_0000
    }

    /// An integer that orders numbers as they compare.
    #[inline]
    pub fn order_key(self) -> (r: u64)
        ensures
            r == self.key(),
    {
        if self.bits >= 0x8000_0000 {
            0x8000_0000u64 - (self.bits - 0x8000_0000) as u64
        } else {
            0x8000_0000u64 + self.bits as u64
        }
    }

    #[inline]
    pub fn less(self, other: F32) -> (r: bool)
        ensures
            r == self.lt(other),
    {
        !self.is_nan() && !other.is_nan() && self.order_key() < other.order_key()
    }

    #[inline]
    pub fn at_most(self, other: F32) -> (r: bool)
        ensures
            r == self.le(other),
    {
        !self.is_nan() && !other.is_nan() && self.order_key() <= other.order_key()
    }

    #[inline]
    pub fn equals(self, other: F32) -> (r: bool)
        ensures
            r == self.same(other),
    {
        !self.is_nan() && !other.is_nan() && self.order_key() == other.order_key()
    }

    /// The same number with the other sign.
    pub open spec fn spec_negated(self) -> F32 {
        if self.negative() {
            F32 { bits: (self.bits - 0x8000_0000) as u32 }
        } else {
            F32 { bits: (self.bits + 0x8000_0000) as u32 }
        }
    }

    #[inline]
    pub fn negated(self) -> (r: F32)
        ensures
            r == self.spec_negated(),
            r.units() == -self.units(),
    {
        if self.bits >= 0x8000_0000 {
            F32 { bits: self.bits - 0x8000_0000 }
        } else {
            F32 { bits: self.bits + 0x8000_0000 }
        }
    }
}

impl F64 {
    pub open spec fn negative(self) -> bool {
        self.bits >= 0x8000_0000_0000_0000
    }

    /// The bits without the sign.
    pub open spec fn magnitude(self) -> int {
        if self.negative() {
            self.bits - 0x8000_0000_0000_0000
        } else {
            self.bits as int
        }
    }

    pub open spec fn spec_is_nan(self) -> bool {
        self.magnitude() > 0x7ff0_0000_0000_0000
    }

    pub open spec fn spec_is_finite(self) -> bool {
        self.magnitude() < 0x7ff0_0000_0000_0000
    }

    /// Position of the number in the order of all numbers of the format.
    pub open spec fn rank(self) -> int {
        if self.negative() {
            -self.magnitude()
        } else {
            self.magnitude()
        }
    }

    /// The number itself, in units of two to the minus 1074.
    pub open spec fn units(self) -> int {
        if self.negative() {
            -scaled(self.magnitude(), 0x10_0000_0000_0000)
        } else {
            scaled(self.magnitude(), 0x10_0000_0000_0000)
        }
    }

    /// `self < other` as numbers; false where either is not a number.
    pub open spec fn lt(self, other: F64) -> bool {
        !self.spec_is_nan() && !other.spec_is_nan() && self.rank() < other.rank()
    }

    /// `self <= other` as numbers; false where either is not a number.
    pub open spec fn le(self, other: F64) -> bool {
        !self.spec_is_nan() && !other.spec_is_nan() && self.rank() <= other.rank()
    }

    /// The rank, moved up to be nonnegative.
    pub open spec fn key(self) -> int {
        self.rank() + 0x8000_0000_0000_0000
    }

    #[inline]
    #[verifier::when_used_as_spec(spec_is_nan)]
    pub fn is_nan(self) -> (r: bool)
        ensures
            r == self.spec_is_nan(),
    {
        let m: u64 = if self.bits >= 0x8000_0000_0000_0000 {
            self.bits - 0x8000_0000_0000_0000
        } else {
            self.bits
        };
        m > 0x7ff0_0000_0000_0000
    }

    #[inline]
    #[verifier::when_used_as_spec(spec_is_finite)]
    pub fn is_finite(self) -> (r: bool)
        ensures
            r == self.spec_is_finite(),
    {
        let m: u64 = if self.bits >= 0x8000_0000_0000_0000 {
            self.bits - 0x8000_0000_0000_0000
        } else {
            self.bits
        };
        m < 0x7ff0_0000_0000_0000
    }

    /// An integer that orders numbers as they compare.
    #[inline]
    pub fn order_key(self) -> (r: u64)
        ensures
            r == self.key(),
    {
        if self.bits >= 0x8000_0000_0000_0000 {
            0x8000_0000_0000_0000u64 - (self.bits - 0x8000_0000_0000_0000)
        } else {
            0x8000_0000_0000_0000u64 + self.bits
        }
    }

    #[inline]
    pub fn less(self, other: F64) -> (r: bool)
        ensures
            r == self.lt(other),
    {
        !self.is_nan() && !other.is_nan() && self.order_key() < other.order_key()
    }

    #[inline]
    pub fn at_most(self, other: F64) -> (r: bool)
        ensures
            r == self.le(other),
    {
        !self.is_nan() && !other.is_nan() && self.order_key() <= other.order_key()
    }

    /// The same number with the other sign.
    pub open spec fn spec_negated(self) -> F64 {
        if self.negative() {
            F64 { bits: (self.bits - 0x8000_0000_0000_0000) as u64 }
        } else {
            F64 { bits: (self.bits + 0x8000_0000_0000_0000) as u64 }
        }
    }

    #[inline]
    pub fn negated(self) -> (r: F64)
        ensures
            r == self.spec_negated(),
            r.units() == -self.units(),
    {
        if self.bits >= 0x8000_0000_0000_0000 {
            F64 { bits: self.bits - 0x8000_0000_0000_0000 }
        } else {
            F64 { bits: self.bits + 0x8000_0000_0000_0000 }
        }
    }

    /// `self` brought into `lo..=hi`; a value that is not a number stays as it is.
    pub open spec fn spec_clamped(self, lo: F64, hi: F64) -> F64 {
        if self.lt(lo) {
            lo
        } else if hi.lt(self) {
            hi
        } else {
            self
        }
    }

    #[inline]
    pub fn clamped(self, lo: F64, hi: F64) -> (r: F64)
        ensures
            r == self.spec_clamped(lo, hi),
    {
        if self.less(lo) {
            lo
        } else if hi.less(self) {
            hi
        } else {
            self
        }
    }
}

proof fn lemma_scaled_step(m: int, base: int)
    requires
        0 <= m,
        base > 0,
    ensures
        scaled(m, base) < scaled(m + 1, base),
{
    let e = m / base;
    let f = m % base;
    assert(m == base * e + f && 0 <= f < base && e >= 0) by (nonlinear_arith)
        requires
            e == m / base,
            f == m % base,
            base > 0,
            m >= 0,
    ;
    if f + 1 < base {
        assert((m + 1) / base == e && (m + 1) % base == f + 1) by {
            assert(m + 1 == e * base + (f + 1)) by (nonlinear_arith)
                requires
                    m == base * e + f,
            ;
            vstd::arithmetic::div_mod::lemma_fundamental_div_mod_converse(m + 1, base, e, f + 1);
        }
        if e > 0 {
            let p = pow2((e - 1) as nat) as int;
            lemma_pow2_pos((e - 1) as nat);
            assert((base + f) * p < (base + (f + 1)) * p) by (nonlinear_arith)
                requires
                    p > 0,
            ;
        }
    } else {
        assert((m + 1) / base == e + 1 && (m + 1) % base == 0) by {
            assert(m + 1 == (e + 1) * base + 0) by (nonlinear_arith)
                requires
                    m == base * e + f,
                    f + 1 == base,
            ;
            vstd::arithmetic::div_mod::lemma_fundamental_div_mod_converse(m + 1, base, e + 1, 0);
        }
        lemma_pow2_pos(e as nat);
        if e == 0 {
            vstd::arithmetic::power2::lemma2_to64();
            let p = pow2(0) as int;
            assert((base + 0) * p == base) by (nonlinear_arith)
                requires
                    p == 1,
            ;
        } else {
            lemma_pow2_unfold(e as nat);
            let p = pow2((e - 1) as nat) as int;
            lemma_pow2_pos((e - 1) as nat);
            assert((base + f) * p < (base + 0) * (2 * p)) by (nonlinear_arith)
                requires
                    f < base,
                    p > 0,
            ;
        }
    }
}

proof fn lemma_scaled_monotone(a: int, b: int, base: int)
    requires
        0 <= a < b,
        base > 0,
    ensures
        scaled(a, base) < scaled(b, base),
    decreases b - a,
{
    lemma_scaled_step(b - 1, base);
    if a < b - 1 {
        lemma_scaled_monotone(a, b - 1, base);
    }
}

proof fn lemma_scaled_signed(a: int, b: int, na: bool, nb: bool, base: int)
    requires
        0 <= a,
        0 <= b,
        base > 0,
    ensures
        ({
            let ra = if na { -a } else { a };
            let rb = if nb { -b } else { b };
            let ua = if na { -scaled(a, base) } else { scaled(a, base) };
            let ub = if nb { -scaled(b, base) } else { scaled(b, base) };
            (ra < rb <==> ua < ub) && (ra == rb <==> ua == ub)
        }),
{
    assert(scaled(0, base) == 0) by {
        assert(0int / base == 0 && 0int % base == 0) by (nonlinear_arith)
            requires
                base > 0,
        ;
    }
    if a > 0 {
        lemma_scaled_monotone(0, a, base);
    }
    if b > 0 {
        lemma_scaled_monotone(0, b, base);
    }
    if a < b {
        lemma_scaled_monotone(a, b, base);
    }
    if b < a {
        lemma_scaled_monotone(b, a, base);
    }
}

/// Comparing two binary32 values is comparing the numbers that they denote.
pub proof fn lemma_f32_order_is_numeric(a: F32, b: F32)
    requires
        !a.spec_is_nan(),
        !b.spec_is_nan(),
    ensures
        a.lt(b) <==> a.units() < b.units(),
        a.le(b) <==> a.units() <= b.units(),
        a.same(b) <==> a.units() == b.units(),
{
    lemma_scaled_signed(a.magnitude(), b.magnitude(), a.negative(), b.negative(), 0x80_0000);
}

/// Comparing two binary64 values is comparing the numbers that they denote.
pub proof fn lemma_f64_order_is_numeric(a: F64, b: F64)
    requires
        !a.spec_is_nan(),
        !b.spec_is_nan(),
    ensures
        a.lt(b) <==> a.units() < b.units(),
        a.le(b) <==> a.units() <= b.units(),
{
    lemma_scaled_signed(
        a.magnitude(),
        b.magnitude(),
        a.negative(),
        b.negative(),
        0x10_0000_0000_0000,
    );
}

/// The power of two at the highest set bit of `x`, and the position of that bit.
fn top_power(x: u64, start: u64, start_bit: u64) -> (r: (u64, u64))
    requires
        0 < x < 2 * start,
        start == pow2(start_bit as nat),
        start_bit < 63,
    ensures
        r.0 <= x < 2 * r.0,
        r.0 == pow2(r.1 as nat),
        r.1 <= start_bit,
{
    let mut w: u64 = start;
    let mut p: u64 = start_bit;
    while x < w
        invariant
            0 < x < 2 * w,
            w == pow2(p as nat),
            p <= start_bit,
            start_bit < 63,
        decreases p,
    {
        proof {
            if p == 0 {
                vstd::arithmetic::power2::lemma2_to64();
            } else {
                lemma_pow2_unfold(p as nat);
            }
        }
        w = w / 2;
        p = p - 1;
    }
    (w, p)
}

/// A fraction field that holds `x` without its top bit, shifted up to the field's width,
/// denotes `x` times a power of two.
proof fn lemma_normalized(x: int, w: int, p: nat, q: nat, e: nat)
    requires
        w == pow2(p),
        w <= x < 2 * w,
        p <= q,
        e >= 1,
    ensures
        pow2(q) as int / w == pow2((q - p) as nat),
        0 <= (x - w) * (pow2(q) as int / w) < pow2(q),
        scaled(
            e * pow2(q) as int + (x - w) * (pow2(q) as int / w),
            pow2(q) as int,
        ) == x * pow2((q - p + e - 1) as nat) as int,
{
    let base = pow2(q) as int;
    let k = pow2((q - p) as nat) as int;
    lemma_pow2_pos(p);
    lemma_pow2_pos(q);
    lemma_pow2_pos((q - p) as nat);
    lemma_pow2_adds(p, (q - p) as nat);
    assert(base == k * w + 0) by (nonlinear_arith)
        requires
            base == w * k,
    ;
    vstd::arithmetic::div_mod::lemma_fundamental_div_mod_converse(base, w, k, 0);
    let mant = (x - w) * k;
    assert(0 <= mant < base) by (nonlinear_arith)
        requires
            mant == (x - w) * k,
            base == w * k,
            0 <= x - w < w,
            k > 0,
    ;
    let mag = e * base + mant;
    vstd::arithmetic::div_mod::lemma_fundamental_div_mod_converse(mag, base, e as int, mant);
    let t = pow2((e - 1) as nat) as int;
    assert((base + mant) * t == x * (k * t)) by (nonlinear_arith)
        requires
            mant == (x - w) * k,
            base == w * k,
    ;
    lemma_pow2_adds((q - p) as nat, (e - 1) as nat);
    assert((q - p) as nat + (e - 1) as nat == (q - p + e - 1) as nat);
}

proof fn lemma_field_widths()
    ensures
        pow2(23) == 0x80_0000,
        pow2(52) == 0x10_0000_0000_0000,
        pow2(22) == 0x40_0000,
        pow2(29) == 0x2000_0000,
        pow2(7) == 0x80,
{
    vstd::arithmetic::power2::lemma2_to64();
    vstd::arithmetic::power2::lemma2_to64_rest();
}

impl F32 {
    /// The number `x / 2^24`, which the format holds exactly.
    pub fn from_fraction(x: u32) -> (r: F32)
        requires
            x < 0x100_0000,
        ensures
            !r.negative(),
            r.spec_is_finite(),
            r.units() == x * pow2(125),
    {
        proof {
            lemma_field_widths();
        }
        if x == 0 {
            proof {
                assert(scaled(0, 0x80_0000) == 0);
                assert(0 * pow2(125) == 0) by (nonlinear_arith);
            }
            return F32 { bits: 0 };
        }
        let (w, p): (u64, u64) = top_power(x as u64, 0x80_0000, 23);
        proof {
            lemma_normalized(x as int, w as int, p as nat, 23, (p + 103) as nat);
            assert((23 - p + (p + 103) - 1) as nat == 125);
        }
        let mant: u64 = (x as u64 - w) * (0x80_0000u64 / w);
        let bits: u64 = (p + 103) * 0x80_0000 + mant;
        F32 { bits: bits as u32 }
    }

    /// `r` is the same number in the wider format; all values that are not a number go
    /// to one of them.
    pub open spec fn widens_to(self, r: F64) -> bool {
        if self.spec_is_nan() {
            r.bits == 0x7ff8_0000_0000_0000
        } else {
            &&& r.negative() == self.negative()
            &&& !r.spec_is_nan()
            &&& r.spec_is_finite() == self.spec_is_finite()
            &&& self.spec_is_finite() ==> r.units() == self.units() * pow2(925)
        }
    }

    /// The same number in the wider format.
    pub open spec fn spec_widened(self) -> F64 {
        choose|r: F64| self.widens_to(r)
    }

    #[verifier::when_used_as_spec(spec_widened)]
    pub fn widened(self) -> (r: F64)
        ensures
            r == self.spec_widened(),
            self.widens_to(r),
    {
        let neg: bool = self.bits >= 0x8000_0000;
        let m: u64 = if neg {
            (self.bits - 0x8000_0000) as u64
        } else {
            self.bits as u64
        };
        if m > 0x7f80_0000 {
            let r = F64 { bits: 0x7ff8_0000_0000_0000 };
            proof {
                assert(self.widens_to(r));
            }
            return r;
        }
        let mag: u64 = if m == 0x7f80_0000 {
            0x7ff0_0000_0000_0000u64
        } else if m >= 0x80_0000 {
            proof {
                lemma_widened_normal(m as int);
            }
            m * 0x2000_0000 + 0x3800_0000_0000_0000u64
        } else if m == 0 {
            proof {
                assert(0 * pow2(925) == 0) by (nonlinear_arith);
            }
            0
        } else {
            proof {
                lemma_field_widths();
            }
            let (w, p): (u64, u64) = top_power(m, 0x40_0000, 22);
            proof {
                lemma_normalized(m as int, w as int, p as nat, 52, (p + 874) as nat);
                assert((52 - p + (p + 874) - 1) as nat == 925);
            }
            (p + 874) * 0x10_0000_0000_0000 + (m - w) * (0x10_0000_0000_0000u64 / w)
        };
        let r = if neg {
            F64 { bits: mag + 0x8000_0000_0000_0000 }
        } else {
            F64 { bits: mag }
        };
        proof {
            if m < 0x7f80_0000 {
                assert(scaled(mag as int, 0x10_0000_0000_0000) == scaled(m as int, 0x80_0000)
                    * pow2(925));
                let a = scaled(m as int, 0x80_0000);
                let t = pow2(925) as int;
                assert((-a) * t == -(a * t)) by (nonlinear_arith);
            }
            assert(self.widens_to(r));
            lemma_widened_unique(self, r, self.spec_widened());
        }
        r
    }
}

proof fn lemma_widened_normal(m: int)
    requires
        0x80_0000 <= m < 0x7f80_0000,
    ensures
        scaled(m * 0x2000_0000 + 0x3800_0000_0000_0000, 0x10_0000_0000_0000) == scaled(m, 0x80_0000)
            * pow2(925),
        m * 0x2000_0000 + 0x3800_0000_0000_0000 < 0x7ff0_0000_0000_0000,
{
    lemma_field_widths();
    let e = m / 0x80_0000;
    let f = m % 0x80_0000;
    let mag = m * 0x2000_0000 + 0x3800_0000_0000_0000;
    assert(mag == (e + 896) * 0x10_0000_0000_0000 + f * 0x2000_0000);
    assert(mag / 0x10_0000_0000_0000 == e + 896 && mag % 0x10_0000_0000_0000 == f * 0x2000_0000);
    lemma_pow2_adds(29, (e - 1) as nat);
    lemma_pow2_adds((e - 1) as nat, 925);
    lemma_pow2_adds(29, (e + 895) as nat);
    assert((e - 1) as nat + 925 == 29 + (e + 895) as nat);
    let t = pow2((e - 1) as nat) as int;
    let u = pow2((e + 895) as nat) as int;
    let v = pow2(925) as int;
    assert(t * v == 0x2000_0000 * u);
    assert((0x10_0000_0000_0000 + f * 0x2000_0000) * u == ((0x80_0000 + f) * t) * v)
        by (nonlinear_arith)
        requires
            t * v == 0x2000_0000 * u,
    {
        assert(((0x80_0000 + f) * t) * v == (0x80_0000 + f) * (t * v));
        assert((0x80_0000 + f) * (0x2000_0000 * u) == (0x10_0000_0000_0000 + f * 0x2000_0000) * u);
    }
}

/// A number has one representation in the wider format.
proof fn lemma_widened_unique(x: F32, a: F64, b: F64)
    requires
        x.widens_to(a),
        x.widens_to(b),
    ensures
        a == b,
{
    if !x.spec_is_nan() {
        if x.spec_is_finite() {
            lemma_f64_order_is_numeric(a, b);
            assert(a.le(b) && b.le(a));
        }
    }
}

impl F64 {
    /// `self` is the number `n`.
    pub open spec fn denotes(self, n: int) -> bool {
        !self.negative() && self.spec_is_finite() && self.units() == n * pow2(1074)
    }

    /// The number `n`, for `n` below 256.
    pub open spec fn of_byte(n: u8) -> F64 {
        choose|r: F64| r.denotes(n as int)
    }

    #[verifier::when_used_as_spec(of_byte)]
    pub fn from_byte(n: u8) -> (r: F64)
        ensures
            r == F64::of_byte(n),
            r.denotes(n as int),
    {
        proof {
            lemma_field_widths();
        }
        let r = if n == 0 {
            proof {
                assert(0 * pow2(1074) == 0) by (nonlinear_arith);
            }
            F64 { bits: 0 }
        } else {
            let (w, p): (u64, u64) = top_power(n as u64, 0x80, 7);
            proof {
                lemma_normalized(n as int, w as int, p as nat, 52, (p + 1023) as nat);
                assert((52 - p + (p + 1023) - 1) as nat == 1074);
            }
            F64 {
                bits: (p + 1023) * 0x10_0000_0000_0000 + (n as u64 - w) * (
                0x10_0000_0000_0000u64 / w),
            }
        };
        proof {
            assert(r.denotes(n as int));
            lemma_f64_order_is_numeric(r, F64::of_byte(n));
            assert(r.le(F64::of_byte(n)) && F64::of_byte(n).le(r));
        }
        r
    }
}

} // verus!
