//! Exact comparison of products too large for a machine word.

use vstd::prelude::*;

verus! {

/// 2^64.
pub open spec fn half_limb() -> int {
    0x1_0000_0000_0000_0000
}

/// 2^128, the weight of the upper half of a [`Wide`].
pub open spec fn limb() -> int {
    0x1_0000_0000_0000_0000_0000_0000_0000_0000int
}

/// An unsigned 256-bit magnitude.
#[derive(Debug, Copy, Clone, PartialEq, Eq)]
pub struct Wide {
    pub hi: u128,
    pub lo: u128,
}

impl Wide {
    /// The number this magnitude stands for.
    pub open spec fn value(&self) -> int {
        self.hi * limb() + self.lo
    }

    /// The exact product of two machine words.
    pub fn product(a: u128, b: u128) -> (p: Wide)
        ensures
            p.value() == a * b,
    {
        let k: u128 = 0x1_0000_0000_0000_0000;
        let a0: u128 = a % k;
        let a1: u128 = a / k;
        let b0: u128 = b % k;
        let b1: u128 = b / k;
        proof {
            lemma_half_product(a0, b0);
            lemma_half_product(a0, b1);
            lemma_half_product(a1, b0);
            lemma_half_product(a1, b1);
        }
        let ll: u128 = a0 * b0;
        let lh: u128 = a0 * b1;
        let hl: u128 = a1 * b0;
        let hh: u128 = a1 * b1;
        let t: u128 = ll / k + lh % k + hl % k;
        let lo: u128 = (t % k) * k + ll % k;
        let hi: u128 = hh + lh / k + hl / k + t / k;
        proof {
            lemma_split_product(a0 as int, a1 as int, b0 as int, b1 as int, half_limb());
            assert(half_limb() * half_limb() == limb());
            assert(a == a1 * half_limb() + a0);
            assert(b == b1 * half_limb() + b0);
            assert(a * b == (a1 * half_limb() + a0) * (b1 * half_limb() + b0));
            assert(a * b == hh * limb() + (lh + hl) * half_limb() + ll);
            assert(lh == (lh / k) * half_limb() + lh % k);
            assert(hl == (hl / k) * half_limb() + hl % k);
            assert(ll == (ll / k) * half_limb() + ll % k);
            assert(t == (t / k) * half_limb() + t % k);
        }
        Wide { hi, lo }
    }

    /// Whether this magnitude is at least `other`.
    pub fn ge(&self, other: &Wide) -> (b: bool)
        ensures
            b == (self.value() >= other.value()),
    {
        self.hi > other.hi || (self.hi == other.hi && self.lo >= other.lo)
    }

    /// The sum of two magnitudes that stays below 2^256.
    pub fn plus(&self, other: &Wide) -> (s: Wide)
        requires
            self.value() + other.value() < limb() * limb(),
        ensures
            s.value() == self.value() + other.value(),
    {
        if self.lo <= u128::MAX - other.lo {
            Wide { hi: self.hi + other.hi, lo: self.lo + other.lo }
        } else {
            let lo: u128 = self.lo - (u128::MAX - other.lo) - 1;
            Wide { hi: self.hi + other.hi + 1, lo }
        }
    }

    /// This magnitude multiplied by a small factor, as `carry · 2^256` plus a
    /// magnitude.
    fn stretch(&self, k: u64) -> (product: (u128, Wide))
        ensures
            product.0 * (limb() * limb()) + product.1.value() == self.value() * k,
    {
        let low = Wide::product(self.lo, k as u128);
        let high = Wide::product(self.hi, k as u128);
        proof {
            vstd::arithmetic::mul::lemma_mul_upper_bound(
                self.hi as int,
                0xffff_ffff_ffff_ffff_ffff_ffff_ffff_ffff,
                k as int,
                0xffff_ffff_ffff_ffff,
            );
            assert(high.hi < 0x1_0000_0000_0000_0000);
            lemma_stretch(
                self.hi as int,
                self.lo as int,
                k as int,
                high.hi as int,
                high.lo as int,
                low.hi as int,
                low.lo as int,
                limb(),
            );
        }
        if high.lo <= u128::MAX - low.hi {
            (high.hi, Wide { hi: high.lo + low.hi, lo: low.lo })
        } else {
            let hi: u128 = high.lo - (u128::MAX - low.hi) - 1;
            (high.hi + 1, Wide { hi, lo: low.lo })
        }
    }

    /// Whether this magnitude times `k` is at least `other` times `m`.
    pub fn scaled_ge(&self, k: u64, other: &Wide, m: u64) -> (b: bool)
        ensures
            b == (self.value() * k >= other.value() * m),
    {
        let (top, rest) = self.stretch(k);
        let (other_top, other_rest) = other.stretch(m);
        proof {
            let square = limb() * limb();
            assert(square == 0x1_0000_0000_0000_0000_0000_0000_0000_0000int
                * 0x1_0000_0000_0000_0000_0000_0000_0000_0000int);
            assert(square > 0);
            assert(0 <= rest.value() < square);
            assert(0 <= other_rest.value() < square);
            assert(self.value() * k == top * square + rest.value());
            assert(other.value() * m == other_top * square + other_rest.value());
            assert(top > other_top ==> top * square >= other_top * square + square)
                by (nonlinear_arith)
                requires
                    square > 0,
            ;
            assert(top < other_top ==> other_top * square >= top * square + square)
                by (nonlinear_arith)
                requires
                    square > 0,
            ;
        }
        top > other_top || (top == other_top && rest.ge(&other_rest))
    }

    /// This magnitude multiplied by a small factor, the result below 2^256.
    pub fn scale(&self, k: u64) -> (p: Wide)
        requires
            self.value() * k < limb() * limb(),
        ensures
            p.value() == self.value() * k,
    {
        let low = Wide::product(self.lo, k as u128);
        proof {
            lemma_scale_fits(
                self.hi as int,
                self.lo as int,
                k as int,
                low.hi as int,
                low.lo as int,
                limb(),
            );
        }
        let hi: u128 = self.hi * (k as u128) + low.hi;
        Wide { hi, lo: low.lo }
    }
}

/// The absolute value of an integer.
pub open spec fn abs(x: int) -> int {
    if x >= 0 {
        x
    } else {
        -x
    }
}

/// A square does not depend on the sign of its root.
pub proof fn lemma_abs_square(x: int)
    by (nonlinear_arith)
    ensures
        abs(x) * abs(x) == x * x,
        x * x >= 0,
{
}

/// The magnitude of a signed word.
pub fn magnitude(x: i128) -> (m: u128)
    ensures
        m == abs(x as int),
{
    if x >= 0 {
        x as u128
    } else if x == i128::MIN {
        0x8000_0000_0000_0000_0000_0000_0000_0000
    } else {
        (-x) as u128
    }
}

/// The exact product of two 64-bit words.
pub fn times(a: u64, b: u64) -> (p: u128)
    ensures
        p == a * b,
{
    proof {
        vstd::arithmetic::mul::lemma_mul_upper_bound(
            a as int,
            0xffff_ffff_ffff_ffff,
            b as int,
            0xffff_ffff_ffff_ffff,
        );
    }
    (a as u128) * (b as u128)
}

/// The product of two 64-bit halves fits 128 bits with room to spare.
proof fn lemma_half_product(x: u128, y: u128)
    by (nonlinear_arith)
    requires
        x < 0x1_0000_0000_0000_0000,
        y < 0x1_0000_0000_0000_0000,
    ensures
        x * y <= 0xffff_ffff_ffff_fffe_0000_0000_0000_0001,
{
}

/// Schoolbook multiplication of two two-digit numbers in base `k`.
proof fn lemma_split_product(a0: int, a1: int, b0: int, b1: int, k: int)
    ensures
        (a1 * k + a0) * (b1 * k + b0) == (a1 * b1) * (k * k) + (a0 * b1 + a1 * b0) * k + a0 * b0,
{
    let x = a1 * k;
    let y = b1 * k;
    assert((x + a0) * (y + b0) == x * y + x * b0 + a0 * y + a0 * b0) by (nonlinear_arith);
    assert(x * y == (a1 * b1) * (k * k)) by (nonlinear_arith)
        requires
            x == a1 * k,
            y == b1 * k,
    ;
    assert(x * b0 == (a1 * b0) * k) by (nonlinear_arith)
        requires
            x == a1 * k,
    ;
    assert(a0 * y == (a0 * b1) * k) by (nonlinear_arith)
        requires
            y == b1 * k,
    ;
    assert((a0 * b1 + a1 * b0) * k == (a0 * b1) * k + (a1 * b0) * k) by (nonlinear_arith);
}

/// Scaling a two-digit number in base `base` digit by digit.
proof fn lemma_stretch(hi: int, lo: int, k: int, hh: int, hl: int, lh: int, ll: int, base: int)
    requires
        hh * base + hl == hi * k,
        lh * base + ll == lo * k,
    ensures
        (hi * base + lo) * k == hh * (base * base) + (hl + lh) * base + ll,
{
    assert((hi * base + lo) * k == (hi * k) * base + lo * k) by (nonlinear_arith);
    assert((hh * base + hl) * base == hh * (base * base) + hl * base) by (nonlinear_arith);
    assert((hl + lh) * base == hl * base + lh * base) by (nonlinear_arith);
}

/// Scaling a two-digit number in base `base` digit by digit, where the
/// product still has two digits.
proof fn lemma_scale_fits(hi: int, lo: int, k: int, c: int, l: int, base: int)
    by (nonlinear_arith)
    requires
        0 <= hi,
        0 <= lo,
        0 <= k,
        0 <= c,
        0 <= l < base,
        c * base + l == lo * k,
        (hi * base + lo) * k < base * base,
    ensures
        0 <= hi * k,
        hi * k + c < base,
        (hi * k + c) * base + l == (hi * base + lo) * k,
{
}

} // verus!
