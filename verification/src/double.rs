//! Floating point numbers, carried and never computed with.

use vstd::arithmetic::div_mod::{lemma_div_denominator, lemma_div_is_ordered_by_denominator};
use vstd::arithmetic::power2::{
    lemma2_to64, lemma2_to64_rest, lemma_pow2_adds, lemma_pow2_strictly_increases,
    lemma_pow2_unfold, pow2,
};
use vstd::prelude::*;

verus! {

/// An IEEE 754 double, as its 64 bits.
///
/// The library moves these between files and descriptions. Arithmetic on them
/// belongs to the program around it.
#[derive(Debug, Clone, Copy, PartialEq, Eq, Structural)]
pub struct Real {
    pub bits: u64,
}

/// Zero.
pub const ZERO: u64 = 0;

/// One.
pub const ONE: u64 = 0x3ff0_0000_0000_0000;

/// Positive infinity: every larger pattern below the sign bit is not a number.
pub const INFINITY: u64 = 0x7ff0_0000_0000_0000;

/// Negative infinity.
pub const NEG_INFINITY: u64 = 0xfff0_0000_0000_0000;

impl Real {
    /// The number whose bits are `bits`.
    pub fn new(bits: u64) -> (r: Self)
        ensures
            r == (Real { bits }),
    {
        Real { bits }
    }

    /// Whether the number is finite and above zero, by its bits alone.
    ///
    /// Positive doubles are ordered as their patterns are, with zero at the
    /// bottom and infinity above every finite one.
    pub open spec fn positive(self) -> bool {
        0 < self.bits < INFINITY
    }

    /// Whether the number is finite and above zero.
    pub fn is_positive(self) -> (r: bool)
        ensures
            r == self.positive(),
    {
        0 < self.bits && self.bits < INFINITY
    }

    /// Where the number stands among all numbers: not a number stands nowhere,
    /// and the two zeros stand together.
    pub open spec fn rank(self) -> Option<int> {
        if INFINITY < self.bits < 0x8000_0000_0000_0000 || self.bits > NEG_INFINITY {
            None
        } else if self.bits < 0x8000_0000_0000_0000 {
            Some(self.bits as int)
        } else {
            Some(0x8000_0000_0000_0000 - self.bits)
        }
    }

    /// Whether the number is below another.
    pub open spec fn below(self, other: Real) -> bool {
        match (self.rank(), other.rank()) {
            (Some(a), Some(b)) => a < b,
            _ => false,
        }
    }

    /// Whether the number is below another.
    pub fn is_below(self, other: Real) -> (r: bool)
        ensures
            r == self.below(other),
    {
        match (self.place(), other.place()) {
            (Some(a), Some(b)) => a < b,
            _ => false,
        }
    }

    /// Whether the number is below another or stands where it does.
    pub open spec fn at_most(self, other: Real) -> bool {
        match (self.rank(), other.rank()) {
            (Some(a), Some(b)) => a <= b,
            _ => false,
        }
    }

    /// Whether the number is below another or stands where it does.
    pub fn is_at_most(self, other: Real) -> (r: bool)
        ensures
            r == self.at_most(other),
    {
        match (self.place(), other.place()) {
            (Some(a), Some(b)) => a <= b,
            _ => false,
        }
    }

    fn place(self) -> (r: Option<i64>)
        ensures
            match r {
                Some(p) => self.rank() == Some(p as int),
                None => self.rank() is None,
            },
    {
        let b: u64 = self.bits;
        if (INFINITY < b && b < 0x8000_0000_0000_0000) || b > NEG_INFINITY {
            None
        } else if b < 0x8000_0000_0000_0000 {
            Some(b as i64)
        } else {
            Some(-((b - 0x8000_0000_0000_0000) as i64))
        }
    }

    /// Whether the number is neither infinite nor not a number.
    pub open spec fn finite(self) -> bool {
        self.bits < INFINITY || 0x8000_0000_0000_0000 <= self.bits < NEG_INFINITY
    }

    /// Whether the number is neither infinite nor not a number.
    pub fn is_finite(self) -> (r: bool)
        ensures
            r == self.finite(),
    {
        self.bits < INFINITY || (0x8000_0000_0000_0000 <= self.bits && self.bits < NEG_INFINITY)
    }

    /// A whole number.
    pub open spec fn of(n: nat) -> Real {
        Real {
            bits: if n == 0 {
                0
            } else {
                let e = top_bit(n);
                ((1023 + e) * 0x10_0000_0000_0000 + (n - pow2(e)) * pow2((52 - e) as nat)) as u64
            },
        }
    }

    /// A whole number.
    pub fn whole(n: u32) -> (r: Self)
        ensures
            r == Real::of(n as nat),
    {
        if n == 0 {
            return Real { bits: 0 };
        }
        let mut e: u64 = 0;
        let mut p: u64 = 1;
        let mut q: u64 = 0x10_0000_0000_0000;
        let wide: u64 = n as u64;
        proof {
            lemma2_to64();
            lemma2_to64_rest();
        }
        while wide / p >= 2
            invariant
                1 <= p <= wide <= 0xffff_ffff,
                e <= 31,
                p == pow2(e as nat),
                q == pow2((52 - e) as nat),
                top_bit(wide as nat) == e + top_bit((wide / p) as nat),
            decreases wide / p,
        {
            proof {
                lemma_pow2_unfold((e + 1) as nat);
                lemma_pow2_unfold((52 - e) as nat);
                let half = wide / p;
                assert(half >= 2);
                lemma_div_denominator(wide as int, p as int, 2);
                assert(p * 2 <= wide) by (nonlinear_arith)
                    requires
                        wide as int / p as int >= 2,
                        p >= 1,
                ;
                assert(2 * p == p * 2);
                if e >= 31 {
                    lemma_pow2_strictly_increases(31, 32);
                    lemma2_to64();
                }
            }
            p = p * 2;
            q = q / 2;
            e = e + 1;
        }
        proof {
            assert(wide / p == 1) by {
                lemma_div_is_ordered_by_denominator(wide as int, 1, p as int);
                assert(wide as int / p as int >= 1) by (nonlinear_arith)
                    requires
                        p <= wide,
                        p >= 1,
                ;
            }
            assert(wide - p < p) by (nonlinear_arith)
                requires
                    wide as int / p as int == 1,
                    p >= 1,
            ;
            lemma_pow2_adds(e as nat, (52 - e) as nat);
            lemma2_to64_rest();
            assert((wide - p) * q < p * q && 0 <= (wide - p) * q) by (nonlinear_arith)
                requires
                    0 <= wide - p < p,
                    q > 0,
            ;
        }
        Real { bits: (1023 + e) * 0x10_0000_0000_0000 + (wide - p) * q }
    }
}

/// The place of the highest bit of a number.
pub open spec fn top_bit(n: nat) -> nat
    decreases n,
{
    if n < 2 {
        0
    } else {
        1 + top_bit(n / 2)
    }
}

/// `n` copies of one number.
pub fn repeat(value: Real, n: usize) -> (out: Vec<Real>)
    ensures
        out@ == Seq::new(n as nat, |i: int| value),
{
    let mut out: Vec<Real> = Vec::new();
    let mut i: usize = 0;
    while i < n
        invariant
            i <= n,
            out@ == Seq::new(i as nat, |j: int| value),
        decreases n - i,
    {
        out.push(value);
        assert(Seq::new(i as nat, |j: int| value).push(value) =~= Seq::new(
            (i + 1) as nat,
            |j: int| value,
        ));
        i = i + 1;
    }
    out
}

/// A copy of a list of numbers.
pub fn copy(values: &Vec<Real>) -> (out: Vec<Real>)
    ensures
        out@ == values@,
{
    let mut out: Vec<Real> = Vec::new();
    let mut i: usize = 0;
    while i < values.len()
        invariant
            i <= values.len(),
            out@ == values@.take(i as int),
        decreases values.len() - i,
    {
        out.push(values[i]);
        assert(values@.take(i as int).push(values@[i as int]) =~= values@.take(i + 1));
        i = i + 1;
    }
    assert(values@.take(i as int) =~= values@);
    out
}

/// The number of binary digits of a number.
pub open spec fn bit_len(n: nat) -> nat
    decreases n,
{
    if n == 0 {
        0
    } else {
        1 + bit_len(n / 2)
    }
}

/// The number of binary digits of a number.
pub fn binary_digits(n: u64) -> (r: u32)
    ensures
        r == bit_len(n as nat),
        r <= 64,
        r > 0 ==> n >= pow2((r - 1) as nat),
        n < pow2(r as nat),
    decreases n,
{
    proof {
        vstd::arithmetic::power2::lemma2_to64();
    }
    if n == 0 {
        0
    } else {
        let rest = binary_digits(n / 2);
        proof {
            vstd::arithmetic::power2::lemma_pow2_unfold((rest + 1) as nat);
            if rest > 0 {
                vstd::arithmetic::power2::lemma_pow2_unfold(rest as nat);
            }
            if rest >= 64 {
                vstd::arithmetic::power2::lemma_pow2_strictly_increases(62, (rest - 1) as nat);
                assert(false);
            }
        }
        rest + 1
    }
}

/// `a / b` rounded to the nearest whole number, halves to the even one.
pub open spec fn rounded(a: nat, b: nat) -> nat {
    let q = a / b;
    let r = a % b;
    if 2 * r > b || (2 * r == b && q % 2 == 1) {
        q + 1
    } else {
        q
    }
}

/// The nearest number to `n` that has 53 significant binary digits.
pub open spec fn nearest53(n: nat) -> nat {
    if bit_len(n) <= 53 {
        n
    } else {
        let unit = pow2((bit_len(n) - 53) as nat);
        rounded(n, unit) * unit
    }
}

/// `a / b` rounded to the nearest whole number, halves to the even one.
pub fn round_div(a: u128, b: u128) -> (q: u128)
    requires
        0 < b <= 0x1_0000_0000_0000_0000,
        a <= 0xa_0000_0000_0000_0000,
    ensures
        q == rounded(a as nat, b as nat),
        q <= a + 1,
{
    let q: u128 = a / b;
    let r: u128 = a % b;
    assert(q <= a) by (nonlinear_arith)
        requires
            q == a / b,
            b >= 1,
    ;
    assert(0 <= r < b) by (nonlinear_arith)
        requires
            r == a % b,
            b >= 1,
    ;
    if 2 * r > b || (2 * r == b && q % 2 == 1) {
        q + 1
    } else {
        q
    }
}

/// The nearest number with 53 significant binary digits.
pub fn to_nearest53(n: u64) -> (r: u128)
    ensures
        r == nearest53(n as nat),
        r <= 0x1_0000_0000_0000_0000,
{
    let digits = binary_digits(n);
    if digits <= 53 {
        return n as u128;
    }
    let shift: u32 = digits - 53;
    let mut unit: u128 = 1;
    let mut i: u32 = 0;
    proof {
        vstd::arithmetic::power2::lemma2_to64();
    }
    while i < shift
        invariant
            i <= shift <= 11,
            unit == pow2(i as nat),
            unit <= 0x800,
            i < shift ==> unit <= 0x400,
        decreases shift - i,
    {
        unit = unit * 2;
        i = i + 1;
        proof {
            vstd::arithmetic::power2::lemma_pow2_unfold(i as nat);
            vstd::arithmetic::power2::lemma2_to64();
            if i < shift {
                if i < 10 {
                    vstd::arithmetic::power2::lemma_pow2_strictly_increases(i as nat, 10);
                }
            }
        }
    }
    let q = round_div(n as u128, unit);
    proof {
        lemma_nearest_fits(n, digits, unit, q);
    }
    q * unit
}

proof fn lemma_nearest_fits(n: u64, digits: u32, unit: u128, q: u128)
    requires
        53 < digits <= 64,
        n < pow2(digits as nat),
        unit == pow2((digits - 53) as nat),
        q == rounded(n as nat, unit as nat),
    ensures
        q * unit <= 0x1_0000_0000_0000_0000,
{
    let u = unit as int;
    let p53 = pow2(53) as int;
    vstd::arithmetic::power2::lemma2_to64();
    vstd::arithmetic::power2::lemma_pow2_adds(53, (digits - 53) as nat);
    assert(n < p53 * u);
    vstd::arithmetic::power2::lemma_pow2_pos((digits - 53) as nat);
    assert(n as int / u < p53) by (nonlinear_arith)
        requires
            n < p53 * u,
            u > 0,
            n >= 0,
    ;
    assert(q <= p53);
    assert(q * u <= p53 * u) by (nonlinear_arith)
        requires
            q <= p53,
            u > 0,
    ;
    if digits < 64 {
        vstd::arithmetic::power2::lemma_pow2_strictly_increases(digits as nat, 64);
    }
    assert(pow2(64) == 0x1_0000_0000_0000_0000);
}

} // verus!
