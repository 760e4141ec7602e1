//! IEEE 754 numbers held as bit patterns: order, sign, and conversion between the widths.
//!
//! Nothing here computes with fractions. Comparing, negating and taking the larger of two
//! numbers only reads sign and magnitude, and the conversions round an integer significand.

use vstd::arithmetic::power2::{
    lemma2_to64, lemma2_to64_rest, lemma_pow2_adds, lemma_pow2_pos, pow2,
};
use vstd::prelude::*;

verus! {

/// The weight of the sign bit of a double.
pub const SIGN: u64 = 0x8000_0000_0000_0000;

/// The magnitude of an infinite double.
pub const INFINITE: u64 = 0x7ff0_0000_0000_0000;

/// The weight of the sign bit of a single.
pub const SINGLE_SIGN: u32 = 0x8000_0000;

/// The magnitude of an infinite single.
pub const SINGLE_INFINITE: u32 = 0x7f80_0000;

/// A double-precision number, held as its bit pattern.
#[derive(Clone, Copy, Debug, PartialEq, Eq, Structural)]
pub struct Double {
    /// The IEEE 754 binary64 encoding.
    pub bits: u64,
}

impl Double {
    /// Whether the sign bit is set.
    pub open spec fn negative(self) -> bool {
        self.bits >= SIGN
    }

    /// The encoding without its sign bit.
    pub open spec fn magnitude(self) -> int {
        if self.negative() {
            self.bits - SIGN
        } else {
            self.bits as int
        }
    }

    /// Whether this is not a number.
    pub open spec fn nan(self) -> bool {
        self.magnitude() > INFINITE
    }

    /// Whether this is a number, and not an infinite one.
    pub open spec fn finite(self) -> bool {
        self.magnitude() < INFINITE
    }

    /// The place of this number in the order of all numbers; both zeros have place zero.
    pub open spec fn rank(self) -> int {
        if self.negative() {
            -self.magnitude()
        } else {
            self.magnitude()
        }
    }

    /// `self < other`; false where either is not a number.
    pub open spec fn below(self, other: Double) -> bool {
        !self.nan() && !other.nan() && self.rank() < other.rank()
    }

    /// `self <= other`; false where either is not a number.
    pub open spec fn at_most(self, other: Double) -> bool {
        !self.nan() && !other.nan() && self.rank() <= other.rank()
    }

    /// The number with the other sign.
    pub open spec fn opposite(self) -> Double {
        Double {
            bits: (if self.negative() {
                self.bits - SIGN
            } else {
                self.bits + SIGN
            }) as u64,
        }
    }

    /// The number without its sign.
    pub open spec fn modulus(self) -> Double {
        Double { bits: self.magnitude() as u64 }
    }

    /// The larger of two numbers; what is not a number yields to the other.
    pub open spec fn larger(self, other: Double) -> Double {
        if self.nan() || self.below(other) {
            other
        } else {
            self
        }
    }

    /// The smaller of two numbers; what is not a number yields to the other.
    pub open spec fn smaller(self, other: Double) -> Double {
        if self.nan() || other.below(self) {
            other
        } else {
            self
        }
    }

    /// Whether this is a number, and not an infinite one.
    pub fn is_finite(self) -> (r: bool)
        ensures
            r == self.finite(),
    {
        self.magnitude_bits() < INFINITE
    }

    /// Whether this is not a number.
    pub fn is_nan(self) -> (r: bool)
        ensures
            r == self.nan(),
    {
        self.magnitude_bits() > INFINITE
    }

    fn magnitude_bits(self) -> (r: u64)
        ensures
            r == self.magnitude(),
            r < SIGN,
    {
        if self.bits >= SIGN {
            self.bits - SIGN
        } else {
            self.bits
        }
    }

    fn place(self) -> (r: i64)
        ensures
            r == self.rank(),
    {
        let m: i64 = self.magnitude_bits() as i64;
        if self.bits >= SIGN {
            -m
        } else {
            m
        }
    }

    /// `self < other`.
    pub fn is_below(self, other: Double) -> (r: bool)
        ensures
            r == self.below(other),
    {
        !self.is_nan() && !other.is_nan() && self.place() < other.place()
    }

    /// `self <= other`.
    pub fn is_at_most(self, other: Double) -> (r: bool)
        ensures
            r == self.at_most(other),
    {
        !self.is_nan() && !other.is_nan() && self.place() <= other.place()
    }

    /// The number with the other sign.
    pub fn negated(self) -> (r: Double)
        ensures
            r == self.opposite(),
    {
        if self.bits >= SIGN {
            Double { bits: self.bits - SIGN }
        } else {
            Double { bits: self.bits + SIGN }
        }
    }

    /// The number without its sign.
    pub fn absolute(self) -> (r: Double)
        ensures
            r == self.modulus(),
    {
        Double { bits: self.magnitude_bits() }
    }

    /// The larger of two numbers; what is not a number yields to the other.
    pub fn maximum(self, other: Double) -> (r: Double)
        ensures
            r == self.larger(other),
    {
        if self.is_nan() || self.is_below(other) {
            other
        } else {
            self
        }
    }

    /// The smaller of two numbers; what is not a number yields to the other.
    pub fn minimum(self, other: Double) -> (r: Double)
        ensures
            r == self.smaller(other),
    {
        if self.is_nan() || other.is_below(self) {
            other
        } else {
            self
        }
    }
}

/// Whether an upper limit allows all that a tighter one does; where there is none, anything is
/// allowed.
pub open spec fn raises(loose: Option<Double>, tight: Option<Double>) -> bool {
    loose is Some ==> tight is Some && tight->0.at_most(loose->0)
}

/// Whether a lower limit allows all that a tighter one does; where there is none, anything is
/// allowed.
pub open spec fn lowers(loose: Option<Double>, tight: Option<Double>) -> bool {
    loose is Some ==> tight is Some && loose->0.at_most(tight->0)
}

/// Whether the single with these bits is a number, and not an infinite one.
pub open spec fn single_finite(bits: u32) -> bool {
    bits % SINGLE_SIGN < SINGLE_INFINITE
}

/// Whether the single with these bits is a number, and not an infinite one.
pub fn is_single_finite(bits: u32) -> (r: bool)
    ensures
        r == single_finite(bits),
{
    bits % SINGLE_SIGN < SINGLE_INFINITE
}

/// `n` divided by `unit`, rounded to the nearest integer, and to the even one of two that are
/// equally near.
pub open spec fn half_even(n: nat, unit: nat) -> nat {
    let quotient = n / unit;
    let rest = n % unit;
    if 2 * rest > unit || (2 * rest == unit && quotient % 2 == 1) {
        quotient + 1
    } else {
        quotient
    }
}

/// The position of the highest set bit of `n`.
pub open spec fn top_bit(n: nat) -> nat
    decreases n,
{
    if n < 2 {
        0
    } else {
        1 + top_bit(n / 2)
    }
}

/// The encoding of the double nearest to the integer `n`.
///
/// The significand carries its leading one into the exponent field, so a significand that
/// rounding has made one bit longer moves the exponent up by itself.
pub open spec fn double_of(n: nat) -> nat {
    if n == 0 {
        0
    } else {
        let top = top_bit(n);
        let significand = if top <= 52 {
            n * pow2((52 - top) as nat)
        } else {
            half_even(n, pow2((top - 52) as nat))
        };
        (top + 1022) * 0x10_0000_0000_0000 + significand
    }
}

/// The magnitude of the single nearest to a double with this magnitude.
pub open spec fn narrow_magnitude(magnitude: nat) -> nat {
    let exponent = magnitude / 0x10_0000_0000_0000;
    let fraction = magnitude % 0x10_0000_0000_0000;
    if exponent == 2047 {
        if fraction == 0 {
            SINGLE_INFINITE as nat
        } else {
            0x7fc0_0000 + (fraction / 0x2000_0000) % 0x40_0000
        }
    } else if exponent < 872 {
        0
    } else if exponent < 897 {
        half_even(0x10_0000_0000_0000 + fraction, pow2((926 - exponent) as nat))
    } else {
        let encoded = (exponent - 897) as nat * 0x80_0000 + half_even(
            0x10_0000_0000_0000 + fraction,
            0x2000_0000,
        );
        if encoded < SINGLE_INFINITE {
            encoded
        } else {
            SINGLE_INFINITE as nat
        }
    }
}

/// The encoding of the single nearest to a double.
pub open spec fn narrowed(x: Double) -> nat {
    if x.negative() {
        SINGLE_SIGN as nat + narrow_magnitude(x.magnitude() as nat)
    } else {
        narrow_magnitude(x.magnitude() as nat)
    }
}

/// The magnitude of the double equal to a single with this magnitude.
pub open spec fn widen_magnitude(magnitude: nat) -> nat {
    let exponent = magnitude / 0x80_0000;
    let fraction = magnitude % 0x80_0000;
    if exponent == 255 {
        if fraction == 0 {
            INFINITE as nat
        } else {
            0x7ff8_0000_0000_0000 + (fraction % 0x40_0000) * 0x2000_0000
        }
    } else if exponent > 0 {
        (exponent + 896) * 0x10_0000_0000_0000 + fraction * 0x2000_0000
    } else if fraction == 0 {
        0
    } else {
        let top = top_bit(fraction);
        (top + 873) * 0x10_0000_0000_0000 + fraction * pow2((52 - top) as nat)
    }
}

/// The encoding of the double equal to the single with these bits.
pub open spec fn widened(bits: u32) -> nat {
    if bits >= SINGLE_SIGN {
        SIGN as nat + widen_magnitude((bits - SINGLE_SIGN) as nat)
    } else {
        widen_magnitude(bits as nat)
    }
}

proof fn lemma_top_bit(n: nat)
    requires
        n > 0,
    ensures
        pow2(top_bit(n)) <= n < pow2(top_bit(n) + 1),
    decreases n,
{
    lemma2_to64();
    lemma2_to64_rest();
    if n >= 2 {
        lemma_top_bit(n / 2);
        lemma_pow2_adds(1, top_bit(n / 2));
        lemma_pow2_adds(1, top_bit(n / 2) + 1);
    }
}

proof fn lemma_top_bit_bound(n: nat, width: nat)
    requires
        0 < n < pow2(width),
    ensures
        top_bit(n) < width,
    decreases n,
{
    lemma2_to64();
    lemma2_to64_rest();
    if n >= 2 {
        assert(width > 0);
        lemma_pow2_adds(1, (width - 1) as nat);
        lemma_top_bit_bound(n / 2, (width - 1) as nat);
    }
}

/// Two to the power of `k`.
fn power_of_two(k: u64) -> (r: u64)
    requires
        k < 64,
    ensures
        r == pow2(k as nat),
    decreases k,
{
    proof {
        lemma2_to64();
        lemma2_to64_rest();
    }
    if k == 0 {
        1
    } else {
        let half = power_of_two(k - 1);
        proof {
            lemma_pow2_adds(1, (k - 1) as nat);
            lemma_pow2_adds(k as nat, (63 - k) as nat);
            lemma_pow2_pos((63 - k) as nat);
            assert(pow2(k as nat) <= pow2(63)) by (nonlinear_arith)
                requires
                    pow2(k as nat) * pow2((63 - k) as nat) == pow2(63),
                    pow2((63 - k) as nat) >= 1,
            ;
        }
        2 * half
    }
}

fn highest_bit(n: u64) -> (r: u64)
    ensures
        r == top_bit(n as nat),
        n > 0 ==> r < 64,
    decreases n,
{
    if n < 2 {
        0
    } else {
        proof {
            lemma2_to64();
            lemma2_to64_rest();
            lemma_top_bit_bound(n as nat, 64);
        }
        1 + highest_bit(n / 2)
    }
}

fn round_half_even(n: u64, unit: u64) -> (r: u64)
    requires
        0 < unit < 0x8000_0000_0000_0000,
        unit > 1 || n < u64::MAX,
    ensures
        r == half_even(n as nat, unit as nat),
{
    let quotient = n / unit;
    let rest = n % unit;
    if rest > unit - rest || (rest == unit - rest && quotient % 2 == 1) {
        assert(quotient <= n / 2 || unit == 1) by (nonlinear_arith)
            requires
                quotient == n / unit,
                unit > 0,
        ;
        quotient + 1
    } else {
        quotient
    }
}

/// The double nearest to an integer is finite, and its sign bit is clear.
pub proof fn lemma_double_of_bound(n: u64)
    ensures
        double_of(n as nat) < INFINITE,
{
    if n > 0 {
        let top = top_bit(n as nat);
        lemma2_to64();
        lemma2_to64_rest();
        lemma_top_bit(n as nat);
        lemma_top_bit_bound(n as nat, 64);
        if top <= 52 {
            lemma_pow2_adds(top + 1, (52 - top) as nat);
            assert(n * pow2((52 - top) as nat) <= 0x20_0000_0000_0000) by (nonlinear_arith)
                requires
                    n < pow2(top + 1),
                    pow2(top + 1) * pow2((52 - top) as nat) == 0x20_0000_0000_0000,
            ;
        } else {
            lemma_pow2_adds((top - 52) as nat, 53);
            lemma_pow2_pos((top - 52) as nat);
            lemma_half_even_bound(n as nat, pow2((top - 52) as nat), 0x20_0000_0000_0000);
        }
    }
}

/// The double nearest to `n`.
pub fn from_integer(n: u64) -> (r: Double)
    ensures
        r.bits == double_of(n as nat),
{
    if n == 0 {
        return Double { bits: 0 };
    }
    let top = highest_bit(n);
    proof {
        lemma2_to64();
        lemma2_to64_rest();
        lemma_top_bit(n as nat);
    }
    let significand: u64 = if top <= 52 {
        let scale = power_of_two(52 - top);
        proof {
            lemma_pow2_adds((top + 1) as nat, (52 - top) as nat);
            lemma_pow2_pos((52 - top) as nat);
            assert(n * scale <= 0x20_0000_0000_0000) by (nonlinear_arith)
                requires
                    n < pow2((top + 1) as nat),
                    scale == pow2((52 - top) as nat),
                    pow2((top + 1) as nat) * pow2((52 - top) as nat) == 0x20_0000_0000_0000,
            ;
        }
        n * scale
    } else {
        let unit = power_of_two(top - 52);
        proof {
            lemma_pow2_adds((top - 52) as nat, 53);
            lemma_pow2_adds((top - 52) as nat, (63 - top) as nat);
            lemma_pow2_pos((63 - top) as nat);
            assert(1 < unit < 0x8000_0000_0000_0000) by {
                lemma_pow2_adds(1, (top - 53) as nat);
                lemma_pow2_pos((top - 53) as nat);
                assert(unit <= 2048) by (nonlinear_arith)
                    requires
                        unit * pow2((63 - top) as nat) == 2048,
                        pow2((63 - top) as nat) >= 1,
                ;
            }
            assert(n / unit < 0x20_0000_0000_0000) by (nonlinear_arith)
                requires
                    n < unit * 0x20_0000_0000_0000,
                    unit > 0,
            ;
        }
        round_half_even(n, unit)
    };
    Double { bits: (top + 1022) * 0x10_0000_0000_0000 + significand }
}

proof fn lemma_half_even_bound(n: nat, unit: nat, bound: nat)
    requires
        unit > 0,
        n <= unit * bound,
    ensures
        half_even(n, unit) <= bound,
{
    assert(n / unit <= bound && (n / unit == bound ==> n % unit == 0)) by (nonlinear_arith)
        requires
            unit > 0,
            n <= unit * bound,
    ;
}

proof fn lemma_subnormal_unit(exponent: nat, fraction: nat)
    requires
        872 <= exponent < 897,
        fraction < 0x10_0000_0000_0000,
    ensures
        0x4000_0000 <= pow2((926 - exponent) as nat) <= 0x40_0000_0000_0000,
        half_even(0x10_0000_0000_0000 + fraction, pow2((926 - exponent) as nat)) <= 0x80_0000,
{
    let unit = pow2((926 - exponent) as nat);
    lemma2_to64();
    lemma2_to64_rest();
    lemma_pow2_adds(30, (896 - exponent) as nat);
    lemma_pow2_adds((926 - exponent) as nat, (exponent - 872) as nat);
    lemma_pow2_pos((896 - exponent) as nat);
    lemma_pow2_pos((exponent - 872) as nat);
    assert(0x4000_0000 <= unit <= 0x40_0000_0000_0000) by (nonlinear_arith)
        requires
            0x4000_0000 * pow2((896 - exponent) as nat) == unit,
            unit * pow2((exponent - 872) as nat) == 0x40_0000_0000_0000,
            pow2((896 - exponent) as nat) >= 1,
            pow2((exponent - 872) as nat) >= 1,
    ;
    assert(0x10_0000_0000_0000 + fraction <= unit * 0x80_0000) by (nonlinear_arith)
        requires
            fraction < 0x10_0000_0000_0000,
            unit >= 0x4000_0000,
    ;
    lemma_half_even_bound(0x10_0000_0000_0000 + fraction, unit, 0x80_0000);
}

/// The single nearest to `x`.
pub fn narrow(x: Double) -> (r: u32)
    ensures
        r == narrowed(x),
{
    let magnitude = x.magnitude_bits();
    let exponent = magnitude / 0x10_0000_0000_0000;
    let fraction = magnitude % 0x10_0000_0000_0000;
    let narrow_bits: u32 = if exponent == 2047 {
        if fraction == 0 {
            SINGLE_INFINITE
        } else {
            0x7fc0_0000 + ((fraction / 0x2000_0000) % 0x40_0000) as u32
        }
    } else if exponent < 872 {
        0
    } else if exponent < 897 {
        let unit = power_of_two(926 - exponent);
        proof {
            lemma_subnormal_unit(exponent as nat, fraction as nat);
        }
        round_half_even(0x10_0000_0000_0000 + fraction, unit) as u32
    } else {
        proof {
            lemma_half_even_bound(
                (0x10_0000_0000_0000 + fraction) as nat,
                0x2000_0000,
                0x100_0000,
            );
        }
        let encoded = (exponent - 897) * 0x80_0000 + round_half_even(
            0x10_0000_0000_0000 + fraction,
            0x2000_0000,
        );
        if encoded < SINGLE_INFINITE as u64 {
            encoded as u32
        } else {
            SINGLE_INFINITE
        }
    };
    if x.bits >= SIGN {
        SINGLE_SIGN + narrow_bits
    } else {
        narrow_bits
    }
}

/// The double equal to the single with these bits.
pub fn widen(bits: u32) -> (r: Double)
    ensures
        r.bits == widened(bits),
{
    let magnitude: u64 = if bits >= SINGLE_SIGN {
        (bits - SINGLE_SIGN) as u64
    } else {
        bits as u64
    };
    let exponent = magnitude / 0x80_0000;
    let fraction = magnitude % 0x80_0000;
    let wide: u64 = if exponent == 255 {
        if fraction == 0 {
            INFINITE
        } else {
            0x7ff8_0000_0000_0000 + (fraction % 0x40_0000) * 0x2000_0000
        }
    } else if exponent > 0 {
        (exponent + 896) * 0x10_0000_0000_0000 + fraction * 0x2000_0000
    } else if fraction == 0 {
        0
    } else {
        let top = highest_bit(fraction);
        proof {
            lemma2_to64();
            lemma2_to64_rest();
            lemma_top_bit(fraction as nat);
            lemma_top_bit_bound(fraction as nat, 23);
        }
        let scale = power_of_two(52 - top);
        proof {
            lemma_pow2_adds((top + 1) as nat, (52 - top) as nat);
            assert(fraction * scale <= 0x20_0000_0000_0000) by (nonlinear_arith)
                requires
                    fraction < pow2((top + 1) as nat),
                    scale == pow2((52 - top) as nat),
                    pow2((top + 1) as nat) * pow2((52 - top) as nat) == 0x20_0000_0000_0000,
            ;
        }
        (top + 873) * 0x10_0000_0000_0000 + fraction * scale
    };
    if bits >= SINGLE_SIGN {
        Double { bits: SIGN + wide }
    } else {
        Double { bits: wide }
    }
}

/// The singles nearest to a sequence of doubles.
pub open spec fn rounded(values: Seq<Double>) -> Seq<u32> {
    values.map_values(|x: Double| narrowed(x) as u32)
}

/// The doubles equal to a sequence of singles.
pub open spec fn wide(values: Seq<u32>) -> Seq<Double> {
    values.map_values(|bits: u32| Double { bits: widened(bits) as u64 })
}

/// The singles nearest to `values`.
pub fn singles(values: &Vec<Double>) -> (r: Vec<u32>)
    ensures
        r@ == rounded(values@),
{
    let mut r: Vec<u32> = Vec::new();
    let mut i: usize = 0;
    while i < values.len()
        invariant
            i <= values@.len(),
            r@ == rounded(values@.take(i as int)),
        decreases values@.len() - i,
    {
        r.push(narrow(values[i]));
        i = i + 1;
        assert(r@ =~= rounded(values@.take(i as int)));
    }
    assert(values@.take(i as int) =~= values@);
    r
}

/// The doubles equal to `values`.
pub fn doubles(values: &Vec<u32>) -> (r: Vec<Double>)
    ensures
        r@ == wide(values@),
{
    let mut r: Vec<Double> = Vec::new();
    let mut i: usize = 0;
    while i < values.len()
        invariant
            i <= values@.len(),
            r@ == wide(values@.take(i as int)),
        decreases values@.len() - i,
    {
        r.push(widen(values[i]));
        i = i + 1;
        assert(r@ =~= wide(values@.take(i as int)));
    }
    assert(values@.take(i as int) =~= values@);
    r
}

/// The least magnitude of a single that is not a number and raises no signal.
pub const SINGLE_QUIET: u32 = 0x7fc0_0000;

/// Whether the single with these bits is a number, or what is not a number without raising a
/// signal.
pub open spec fn single_quiet(bits: u32) -> bool {
    bits % SINGLE_SIGN <= SINGLE_INFINITE || bits % SINGLE_SIGN >= SINGLE_QUIET
}

proof fn lemma_normal_survives(exponent: nat, fraction: nat)
    requires
        0 < exponent < 255,
        fraction < 0x80_0000,
    ensures
        narrow_magnitude((exponent + 896) * 0x10_0000_0000_0000 + fraction * 0x2000_0000) == exponent
            * 0x80_0000 + fraction,
{
    let wide = (exponent + 896) * 0x10_0000_0000_0000 + fraction * 0x2000_0000;
    assert(wide / 0x10_0000_0000_0000 == exponent + 896);
    assert(wide % 0x10_0000_0000_0000 == fraction * 0x2000_0000);
    let significand = (0x10_0000_0000_0000 + fraction * 0x2000_0000) as nat;
    assert(significand / 0x2000_0000 == 0x80_0000 + fraction);
    assert(significand % 0x2000_0000 == 0);
    assert(half_even(significand, 0x2000_0000) == 0x80_0000 + fraction);
}

proof fn lemma_subnormal_survives(fraction: nat)
    requires
        0 < fraction < 0x80_0000,
    ensures
        narrow_magnitude(widen_magnitude(fraction)) == fraction,
        widen_magnitude(fraction) < INFINITE,
{
    let top = top_bit(fraction);
    let unit = pow2((52 - top) as nat);
    lemma2_to64();
    lemma2_to64_rest();
    lemma_top_bit(fraction);
    lemma_top_bit_bound(fraction, 23);
    lemma_pow2_adds(top + 1, (52 - top) as nat);
    lemma_pow2_adds(top, (52 - top) as nat);
    lemma_pow2_pos((52 - top) as nat);
    assert(0x10_0000_0000_0000 <= fraction * unit < 0x20_0000_0000_0000) by (nonlinear_arith)
        requires
            pow2(top) <= fraction < pow2(top + 1),
            pow2(top + 1) * unit == 0x20_0000_0000_0000,
            pow2(top) * unit == 0x10_0000_0000_0000,
            unit > 0,
    ;
    assert((fraction * unit) / unit == fraction && (fraction * unit) % unit == 0)
        by (nonlinear_arith)
        requires
            unit > 0,
    ;
    let wide = widen_magnitude(fraction);
    assert(wide == (top + 873) * 0x10_0000_0000_0000 + fraction * unit);
    assert(wide / 0x10_0000_0000_0000 == top + 874);
    assert(0x10_0000_0000_0000 + wide % 0x10_0000_0000_0000 == fraction * unit);
    assert((926 - (top + 874)) as nat == (52 - top) as nat);
    assert(half_even(fraction * unit, unit) == fraction);
}

proof fn lemma_magnitude_survives(magnitude: nat)
    requires
        magnitude <= SINGLE_INFINITE || SINGLE_QUIET <= magnitude < SINGLE_SIGN,
    ensures
        narrow_magnitude(widen_magnitude(magnitude)) == magnitude,
        widen_magnitude(magnitude) < SIGN,
{
    let exponent = magnitude / 0x80_0000;
    let fraction = magnitude % 0x80_0000;
    if exponent == 255 {
        if fraction > 0 {
            let wide = widen_magnitude(magnitude);
            let payload = (fraction % 0x40_0000) as nat;
            assert(wide == 0x7ff8_0000_0000_0000 + payload * 0x2000_0000);
            assert(wide / 0x10_0000_0000_0000 == 2047);
            assert(wide % 0x10_0000_0000_0000 == 0x8_0000_0000_0000 + payload * 0x2000_0000);
            assert((0x8_0000_0000_0000 + payload * 0x2000_0000) / 0x2000_0000 == 0x40_0000
                + payload);
        }
    } else if exponent > 0 {
        lemma_normal_survives(exponent, fraction);
    } else if fraction > 0 {
        lemma_subnormal_survives(fraction);
    }
}

proof fn lemma_narrow_magnitude_is_quiet(magnitude: nat)
    requires
        magnitude < SIGN,
    ensures
        narrow_magnitude(magnitude) <= SINGLE_INFINITE || SINGLE_QUIET <= narrow_magnitude(
            magnitude,
        ) < SINGLE_SIGN,
{
    let exponent = magnitude / 0x10_0000_0000_0000;
    let fraction = magnitude % 0x10_0000_0000_0000;
    if 872 <= exponent < 897 {
        lemma_subnormal_unit(exponent, fraction);
    }
}

/// A single survives being widened and narrowed again, unless it raises a signal.
pub proof fn law_narrow_undoes_widen(bits: u32, wide: Double)
    requires
        single_quiet(bits),
        wide.bits == widened(bits),
    ensures
        narrowed(wide) == bits,
{
    lemma_magnitude_survives((bits % SINGLE_SIGN) as nat);
}

/// Rounding what was rounded before changes nothing.
pub proof fn law_rounding_is_idempotent(values: Seq<Double>)
    ensures
        rounded(wide(rounded(values))) == rounded(values),
{
    assert forall|i: int| 0 <= i < values.len() implies rounded(wide(rounded(values)))[i]
        == rounded(values)[i] by {
        let x = values[i];
        lemma_narrow_magnitude_is_quiet(x.magnitude() as nat);
        let single = narrowed(x) as u32;
        lemma_magnitude_survives((single % SINGLE_SIGN) as nat);
        law_narrow_undoes_widen(single, (Double { bits: widened(single) as u64 }));
    }
    assert(rounded(wide(rounded(values))) =~= rounded(values));
}

/// Numbers are ordered as they should be: of two numbers one is at most the other, both are only
/// where neither is below the other, and the order is transitive. What is not a number compares
/// with nothing. Without a sign, numbers are ordered as their bits; with one, they are ordered the
/// other way round and are at most those without; and the two zeros are equal.
pub proof fn law_numbers_are_ordered(a: Double, b: Double, c: Double)
    ensures
        a.nan() || b.nan() ==> !a.at_most(b) && !a.below(b),
        !a.nan() && !b.nan() ==> a.at_most(b) || b.below(a),
        a.below(b) <==> a.at_most(b) && !b.at_most(a),
        a.at_most(b) && b.at_most(c) ==> a.at_most(c),
        a.finite() ==> !a.nan(),
        !a.nan() && !b.nan() && a.bits < SIGN && b.bits < SIGN ==> (a.at_most(b) <==> a.bits
            <= b.bits),
        !a.nan() && !b.nan() && a.bits >= SIGN && b.bits >= SIGN ==> (a.at_most(b) <==> a.bits
            >= b.bits),
        !a.nan() && !b.nan() && a.bits >= SIGN && b.bits < SIGN ==> a.at_most(b),
        (Double { bits: 0 }).at_most(Double { bits: SIGN }),
        !a.nan() <==> a.at_most(Double { bits: 0x7ff0_0000_0000_0000 }) && (Double {
            bits: 0xfff0_0000_0000_0000,
        }).at_most(a),
        a.finite() <==> a.below(Double { bits: 0x7ff0_0000_0000_0000 }) && (Double {
            bits: 0xfff0_0000_0000_0000,
        }).below(a),
{
}

/// The opposite of a number reverses the order and is undone by itself; the modulus is the one of
/// a number and its opposite that is not below zero; and of two numbers the larger and the smaller
/// one are among them, and bound both.
pub proof fn law_opposites_and_extremes(a: Double, b: Double)
    ensures
        a.opposite().opposite() == a,
        a.opposite().nan() == a.nan(),
        a.at_most(b) <==> b.opposite().at_most(a.opposite()),
        a.modulus() == a || a.modulus() == a.opposite(),
        !a.nan() ==> (Double { bits: 0 }).at_most(a.modulus()) && a.modulus().bits < SIGN,
        a.larger(b) == a || a.larger(b) == b,
        a.smaller(b) == a || a.smaller(b) == b,
        !a.nan() && !b.nan() ==> {
            &&& a.at_most(a.larger(b)) && b.at_most(a.larger(b))
            &&& a.smaller(b).at_most(a) && a.smaller(b).at_most(b)
        },
        a.nan() ==> a.larger(b) == b && a.smaller(b) == b,
        b.nan() && !a.nan() ==> a.larger(b) == a && a.smaller(b) == a,
{
}

/// A quotient that is rounded is as near as can be: it misses by no more than half a unit, and
/// where it misses by just that it is even.
pub proof fn law_rounding_is_to_the_nearest(n: nat, unit: nat)
    requires
        unit > 0,
    ensures
        -(unit as int) <= 2 * (half_even(n, unit) * unit - n) <= unit,
        2 * (half_even(n, unit) * unit - n) == unit || 2 * (n - half_even(n, unit) * unit) == unit
            ==> half_even(n, unit) % 2 == 0,
{
    let quotient = n / unit;
    let rest = n % unit;
    assert(n == quotient * unit + rest && rest < unit) by (nonlinear_arith)
        requires
            unit > 0,
            quotient == n / unit,
            rest == n % unit,
    ;
    assert((quotient + 1) * unit == quotient * unit + unit) by (nonlinear_arith);
}

/// What a double magnitude is worth, in units of the least double.
pub open spec fn double_worth(magnitude: nat) -> nat {
    let exponent = magnitude / 0x10_0000_0000_0000;
    let fraction = magnitude % 0x10_0000_0000_0000;
    if exponent == 0 {
        fraction
    } else {
        (0x10_0000_0000_0000 + fraction) * pow2((exponent - 1) as nat)
    }
}

/// What a single magnitude is worth, in units of the least single.
pub open spec fn single_worth(magnitude: nat) -> nat {
    let exponent = magnitude / 0x80_0000;
    let fraction = magnitude % 0x80_0000;
    if exponent == 0 {
        fraction
    } else {
        (0x80_0000 + fraction) * pow2((exponent - 1) as nat)
    }
}

/// Widening changes nothing: the double is worth what the single is, and has its sign.
pub proof fn law_widening_is_exact(bits: u32)
    requires
        single_finite(bits),
    ensures
        (widened(bits) >= SIGN) == (bits >= SINGLE_SIGN),
        widened(bits) % (SIGN as nat) < INFINITE,
        double_worth(widened(bits) % (SIGN as nat)) == single_worth((bits % SINGLE_SIGN) as nat)
            * pow2(925),
{
    let magnitude = (bits % SINGLE_SIGN) as nat;
    let exponent = magnitude / 0x80_0000;
    let fraction = magnitude % 0x80_0000;
    let wide = widen_magnitude(magnitude);
    lemma_magnitude_survives(magnitude);
    lemma2_to64();
    lemma2_to64_rest();
    if exponent > 0 {
        assert(exponent < 255);
        assert(wide == (exponent + 896) * 0x10_0000_0000_0000 + fraction * 0x2000_0000);
        assert(wide / 0x10_0000_0000_0000 == exponent + 896);
        assert(wide % 0x10_0000_0000_0000 == fraction * 0x2000_0000);
        let small = pow2((exponent - 1) as nat);
        let large = pow2((exponent + 895) as nat);
        lemma_pow2_adds(29, (exponent + 895) as nat);
        lemma_pow2_adds((exponent - 1) as nat, 925);
        assert(0x2000_0000 * large == small * pow2(925));
        assert((0x10_0000_0000_0000 + fraction * 0x2000_0000) * large == (0x80_0000 + fraction)
            * small * pow2(925)) by (nonlinear_arith)
            requires
                0x2000_0000 * large == small * pow2(925),
        ;
    } else if fraction > 0 {
        let top = top_bit(fraction);
        let unit = pow2((52 - top) as nat);
        lemma_top_bit(fraction);
        lemma_top_bit_bound(fraction, 23);
        lemma_pow2_adds(top + 1, (52 - top) as nat);
        lemma_pow2_adds(top, (52 - top) as nat);
        lemma_pow2_pos((52 - top) as nat);
        assert(0x10_0000_0000_0000 <= fraction * unit < 0x20_0000_0000_0000) by (nonlinear_arith)
            requires
                pow2(top) <= fraction < pow2(top + 1),
                pow2(top + 1) * unit == 0x20_0000_0000_0000,
                pow2(top) * unit == 0x10_0000_0000_0000,
                unit > 0,
        ;
        assert(wide == (top + 873) * 0x10_0000_0000_0000 + fraction * unit);
        assert(wide / 0x10_0000_0000_0000 == top + 874);
        assert(0x10_0000_0000_0000 + wide % 0x10_0000_0000_0000 == fraction * unit);
        lemma_pow2_adds((52 - top) as nat, (top + 873) as nat);
        assert(fraction * unit * pow2((top + 873) as nat) == fraction * pow2(925))
            by (nonlinear_arith)
            requires
                unit * pow2((top + 873) as nat) == pow2(925),
        ;
    } else {
        assert(0 * pow2(925) == 0);
    }
}

/// A rounded significand, with the exponent that rounding may have moved up.
proof fn lemma_rounded_worth(magnitude: nat)
    requires
        magnitude < INFINITE,
        narrow_magnitude(magnitude) < SINGLE_INFINITE,
    ensures
        ({
            let exponent = magnitude / 0x10_0000_0000_0000;
            let significand = (0x10_0000_0000_0000 + magnitude % 0x10_0000_0000_0000) as nat;
            &&& exponent >= 897 ==> single_worth(narrow_magnitude(magnitude)) * pow2(925)
                == half_even(significand, 0x2000_0000) * 0x2000_0000 * pow2(
                (exponent - 1) as nat,
            )
            &&& 872 <= exponent < 897 ==> {
                let unit = pow2((926 - exponent) as nat);
                &&& unit > 0
                &&& single_worth(narrow_magnitude(magnitude)) * pow2(925) == half_even(
                    significand,
                    unit,
                ) * unit * pow2((exponent - 1) as nat)
                &&& unit * pow2((exponent - 1) as nat) == pow2(925)
            }
        }),
{
    let exponent = magnitude / 0x10_0000_0000_0000;
    let fraction = magnitude % 0x10_0000_0000_0000;
    let significand = (0x10_0000_0000_0000 + fraction) as nat;
    let encoded = narrow_magnitude(magnitude);
    lemma2_to64();
    lemma2_to64_rest();
    if exponent >= 897 {
        let q = half_even(significand, 0x2000_0000);
        let large = pow2((exponent - 1) as nat);
        assert(0x80_0000 <= q <= 0x100_0000);
        assert(encoded == (exponent - 897) * 0x80_0000 + q);
        lemma_pow2_adds(29, (exponent - 1) as nat);
        if q < 0x100_0000 {
            let small = pow2((exponent - 897) as nat);
            assert(encoded / 0x80_0000 == exponent - 896);
            assert(encoded % 0x80_0000 == q - 0x80_0000);
            lemma_pow2_adds((exponent - 897) as nat, 925);
            assert(single_worth(encoded) == q * small);
            assert(q * small * pow2(925) == q * 0x2000_0000 * large) by (nonlinear_arith)
                requires
                    small * pow2(925) == 0x2000_0000 * large,
            ;
        } else {
            let small = pow2((exponent - 896) as nat);
            assert(encoded / 0x80_0000 == exponent - 895);
            assert(encoded % 0x80_0000 == 0);
            lemma_pow2_adds((exponent - 896) as nat, 925);
            lemma_pow2_adds(1, (exponent + 28) as nat);
            assert(single_worth(encoded) == 0x80_0000 * small);
            assert(0x80_0000 * small * pow2(925) == q * 0x2000_0000 * large) by (nonlinear_arith)
                requires
                    q == 0x100_0000,
                    small * pow2(925) == 2 * (0x2000_0000 * large),
            ;
        }
    } else if 872 <= exponent {
        let unit = pow2((926 - exponent) as nat);
        let q = half_even(significand, unit);
        lemma_subnormal_unit(exponent, fraction);
        lemma_pow2_adds((926 - exponent) as nat, (exponent - 1) as nat);
        assert(encoded == q);
        if q == 0x80_0000 {
            assert(encoded / 0x80_0000 == 1 && encoded % 0x80_0000 == 0);
            assert(pow2((1 - 1) as nat) == 1);
            assert(single_worth(encoded) == 0x80_0000 * pow2((1 - 1) as nat));
        } else {
            assert(encoded / 0x80_0000 == 0 && encoded % 0x80_0000 == q);
        }
        assert(single_worth(encoded) == q);
        assert(q * pow2(925) == q * unit * pow2((exponent - 1) as nat)) by (nonlinear_arith)
            requires
                unit * pow2((exponent - 1) as nat) == pow2(925),
        ;
    }
}

/// Narrowing is to the nearest single: the worth changes by no more than half the distance of
/// singles there, and to the even one of two that are equally near. The sign stays.
pub proof fn law_narrowing_is_to_the_nearest(x: Double)
    requires
        x.finite(),
        narrowed(x) % (SINGLE_SIGN as nat) < SINGLE_INFINITE,
    ensures
        (narrowed(x) >= SINGLE_SIGN) == (x.bits >= SIGN),
        ({
            let magnitude = x.magnitude() as nat;
            let exponent = magnitude / 0x10_0000_0000_0000;
            let distance = pow2(if exponent >= 897 { (exponent + 28) as nat } else { 925 });
            let single = narrowed(x) % (SINGLE_SIGN as nat);
            let miss = single_worth(single) * pow2(925) - double_worth(magnitude);
            &&& -(distance as int) <= 2 * miss <= distance
            &&& 2 * miss == distance || -2 * miss == distance ==> single % 2 == 0
        }),
{
    let magnitude = x.magnitude() as nat;
    let exponent = magnitude / 0x10_0000_0000_0000;
    let fraction = magnitude % 0x10_0000_0000_0000;
    let significand = (0x10_0000_0000_0000 + fraction) as nat;
    let single = narrow_magnitude(magnitude);
    lemma_narrow_magnitude_is_quiet(magnitude);
    assert(narrowed(x) % (SINGLE_SIGN as nat) == single);
    lemma2_to64();
    lemma2_to64_rest();
    if exponent >= 872 {
        let unit: nat = if exponent >= 897 {
            0x2000_0000
        } else {
            pow2((926 - exponent) as nat)
        };
        let scale = pow2((exponent - 1) as nat);
        let q = half_even(significand, unit);
        lemma_rounded_worth(magnitude);
        law_rounding_is_to_the_nearest(significand, unit);
        lemma_pow2_adds(29, (exponent - 1) as nat);
        lemma_pow2_pos((exponent - 1) as nat);
        let distance = pow2(if exponent >= 897 { (exponent + 28) as nat } else { 925 });
        assert(distance == unit * scale);
        let miss = q * unit - significand;
        assert(q * unit * scale - significand * scale == miss * scale) by (nonlinear_arith)
            requires
                miss == q * unit - significand,
        ;
        assert(-((unit * scale) as int) <= 2 * (miss * scale) <= unit * scale && (2 * (miss * scale)
            == unit * scale || -2 * (miss * scale) == unit * scale ==> 2 * miss == unit || -2 * miss
            == unit)) by (nonlinear_arith)
            requires
                -(unit as int) <= 2 * miss <= unit,
                scale > 0,
        ;
        if 2 * miss == unit || -2 * miss == unit {
            assert(q % 2 == 0);
            assert(single % 2 == 0);
        }
    } else {
        assert(single == 0);
        lemma_pow2_adds(53, 870);
        lemma_pow2_adds(2, 923);
        lemma_pow2_pos(923);
        if exponent > 0 {
            let scale = pow2((exponent - 1) as nat);
            lemma_pow2_adds((exponent - 1) as nat, (871 - exponent) as nat);
            lemma_pow2_pos((871 - exponent) as nat);
            assert(scale <= pow2(870)) by (nonlinear_arith)
                requires
                    scale * pow2((871 - exponent) as nat) == pow2(870),
                    pow2((871 - exponent) as nat) >= 1,
            ;
            assert(significand * scale <= 0x20_0000_0000_0000 * pow2(870)) by (nonlinear_arith)
                requires
                    significand <= 0x20_0000_0000_0000,
                    scale <= pow2(870),
            ;
        } else {
            lemma_pow2_pos(870);
            assert(fraction <= 0x20_0000_0000_0000 * pow2(870)) by (nonlinear_arith)
                requires
                    fraction < 0x10_0000_0000_0000,
                    pow2(870) >= 1,
            ;
        }
        assert(double_worth(magnitude) <= pow2(923));
        assert(0 * pow2(925) == 0);
    }
}

/// A finite double becomes an infinite single exactly if it is nearer to the number behind the
/// largest single than to that, or as near.
pub proof fn law_narrowing_overflows_exactly_if(x: Double)
    requires
        x.finite(),
    ensures
        narrowed(x) % (SINGLE_SIGN as nat) == SINGLE_INFINITE || narrowed(x) % (SINGLE_SIGN as nat)
            < SINGLE_INFINITE,
        narrowed(x) % (SINGLE_SIGN as nat) == SINGLE_INFINITE <==> x.magnitude()
            >= 0x47ef_ffff_f000_0000,
{
    let magnitude = x.magnitude() as nat;
    let exponent = magnitude / 0x10_0000_0000_0000;
    let fraction = magnitude % 0x10_0000_0000_0000;
    if 872 <= exponent < 897 {
        lemma_subnormal_unit(exponent, fraction);
    }
}

/// The double of an integer is the nearest one: it is exact below two to the power of 53, and
/// otherwise misses by no more than half the distance of doubles there.
pub proof fn law_integers_become_the_nearest_double(n: nat, top: nat)
    requires
        pow2(top) <= n < pow2(top + 1),
        top < 64,
    ensures
        double_of(n) < INFINITE,
        top <= 52 ==> double_worth(double_of(n)) == n * pow2(1074),
        top > 52 ==> -(pow2(top + 1022) as int) <= 2 * (double_worth(double_of(n)) - n * pow2(
            1074,
        )) <= pow2(top + 1022),
{
    lemma2_to64();
    lemma2_to64_rest();
    lemma_pow2_pos(top);
    lemma_top_bit(n);
    lemma_top_is(n, top);
    let bits = double_of(n);
    if top <= 52 {
        let unit = pow2((52 - top) as nat);
        lemma_pow2_adds(top + 1, (52 - top) as nat);
        lemma_pow2_adds(top, (52 - top) as nat);
        lemma_pow2_pos((52 - top) as nat);
        assert(0x10_0000_0000_0000 <= n * unit < 0x20_0000_0000_0000) by (nonlinear_arith)
            requires
                pow2(top) <= n < pow2(top + 1),
                pow2(top + 1) * unit == 0x20_0000_0000_0000,
                pow2(top) * unit == 0x10_0000_0000_0000,
                unit > 0,
        ;
        assert(bits / 0x10_0000_0000_0000 == top + 1023);
        assert(0x10_0000_0000_0000 + bits % 0x10_0000_0000_0000 == n * unit);
        lemma_pow2_adds((52 - top) as nat, top + 1022);
        assert(n * unit * pow2(top + 1022) == n * pow2(1074)) by (nonlinear_arith)
            requires
                unit * pow2(top + 1022) == pow2(1074),
        ;
    } else {
        let unit = pow2((top - 52) as nat);
        let q = half_even(n, unit);
        lemma_pow2_adds((top - 52) as nat, 53);
        lemma_pow2_adds((top - 52) as nat, 52);
        lemma_pow2_pos((top - 52) as nat);
        lemma_half_even_bound(n, unit, 0x20_0000_0000_0000);
        assert(n / unit >= 0x10_0000_0000_0000) by (nonlinear_arith)
            requires
                n >= unit * 0x10_0000_0000_0000,
                unit > 0,
        ;
        law_rounding_is_to_the_nearest(n, unit);
        lemma_pow2_adds((top - 52) as nat, 1074);
        let scale = pow2(1074);
        assert(unit * scale == pow2(top + 1022));
        if q < 0x20_0000_0000_0000 {
            assert(bits / 0x10_0000_0000_0000 == top + 1023);
            assert(0x10_0000_0000_0000 + bits % 0x10_0000_0000_0000 == q);
        } else {
            assert(bits / 0x10_0000_0000_0000 == top + 1024);
            assert(bits % 0x10_0000_0000_0000 == 0);
            lemma_pow2_adds(1, top + 1022);
            assert(0x10_0000_0000_0000 * (2 * pow2(top + 1022)) == q * pow2(top + 1022))
                by (nonlinear_arith)
                requires
                    q == 0x20_0000_0000_0000,
            ;
        }
        assert(double_worth(bits) == q * pow2(top + 1022));
        let miss = q * unit - n;
        assert(q * (unit * scale) - n * scale == miss * scale) by (nonlinear_arith)
            requires
                miss == q * unit - n,
        ;
        lemma_pow2_pos(1074);
        assert(-((unit * scale) as int) <= 2 * (miss * scale) <= unit * scale) by (nonlinear_arith)
            requires
                -(unit as int) <= 2 * miss <= unit,
                scale > 0,
        ;
    }
}

proof fn lemma_top_is(n: nat, top: nat)
    requires
        pow2(top) <= n < pow2(top + 1),
    ensures
        top_bit(n) == top,
    decreases n,
{
    lemma2_to64();
    lemma_pow2_pos(top);
    lemma_pow2_adds(1, top);
    if n >= 2 {
        if top == 0 {
            assert(false);
        }
        lemma_pow2_adds(1, (top - 1) as nat);
        lemma_top_is(n / 2, (top - 1) as nat);
    } else if top > 0 {
        lemma_pow2_adds(1, (top - 1) as nat);
        lemma_pow2_pos((top - 1) as nat);
    }
}

/// What is not a number stays so, and what is infinite stays infinite; and lists are converted
/// item by item.
pub proof fn law_lists_are_converted_item_by_item(values: Seq<Double>, singles: Seq<u32>, i: int)
    ensures
        rounded(values).len() == values.len(),
        0 <= i < values.len() ==> {
            &&& rounded(values)[i] == narrowed(values[i])
            &&& values[i].nan() <==> rounded(values)[i] % SINGLE_SIGN > SINGLE_INFINITE
            &&& !values[i].nan() && !values[i].finite() ==> rounded(values)[i] % SINGLE_SIGN
                == SINGLE_INFINITE
        },
        wide(singles).len() == singles.len(),
        0 <= i < singles.len() ==> wide(singles)[i].bits == widened(singles[i]),
{
    if 0 <= i < values.len() {
        let magnitude = values[i].magnitude() as nat;
        let exponent = magnitude / 0x10_0000_0000_0000;
        lemma_narrow_magnitude_is_quiet(magnitude);
        if 872 <= exponent < 897 {
            lemma_subnormal_unit(exponent, magnitude % 0x10_0000_0000_0000);
        }
    }
    if 0 <= i < singles.len() {
        let magnitude = (singles[i] % SINGLE_SIGN) as nat;
        if magnitude <= SINGLE_INFINITE || SINGLE_QUIET <= magnitude {
            lemma_magnitude_survives(magnitude);
        } else {
            assert(widen_magnitude(magnitude) < SIGN);
        }
    }
}

} // verus!
