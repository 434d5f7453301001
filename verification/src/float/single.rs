//! Single precision: 23 fraction bits, smallest number `2^-149`.

use crate::float::double;
use crate::float::double::Double;
use crate::float::grid;
use crate::float::rounding;
use crate::float::rounding::round_bits;
use vstd::arithmetic::power2;
use vstd::prelude::*;

verus! {

/// Fraction bits of the format.
pub const FRACTION: u32 = 23;

/// The smallest positive number is `2^-UNIT`.
pub const UNIT: u32 = 149;

/// Position of infinity, one past the largest finite number.
pub const INFINITY: u32 = 0x7f80_0000;

/// The sign bit.
pub const SIGN: u32 = 0x8000_0000;

/// A single-precision number, held as its bit pattern.
///
/// Equality is equality of bit patterns; [`Single::at_least`] is the ordering
/// of the numbers.
#[derive(Debug, Clone, Copy, PartialEq, Eq, Structural)]
pub struct Single {
    pub bits: u32,
}

/// The number with this sign and this position on the grid.
pub open spec fn signed(negative: bool, k: nat) -> Single {
    if negative {
        Single { bits: (SIGN + k) as u32 }
    } else {
        Single { bits: k as u32 }
    }
}

/// What an operation without a meaningful result gives.
pub open spec fn not_a_number() -> Single {
    Single { bits: 0x7fc0_0000 }
}

/// The number nearest to `n / d`, both counted in units of `2^-149`.
pub open spec fn nearest(n: nat, d: nat) -> nat {
    rounding::nearest(n, d, FRACTION as nat, INFINITY as nat)
}

/// The number nearest to an integer.
pub open spec fn of_integer(v: nat) -> Single {
    signed(false, nearest(v * power2::pow2(UNIT as nat), 1))
}

/// `a + b`.
pub open spec fn sum(a: Single, b: Single) -> Single {
    if a.is_nan() || b.is_nan() {
        not_a_number()
    } else if a.is_infinite() {
        if b.is_infinite() && a.negative() != b.negative() {
            not_a_number()
        } else {
            a
        }
    } else if b.is_infinite() {
        b
    } else {
        let v = a.units() + b.units();
        if v == 0 {
            signed(a.negative() && b.negative(), 0)
        } else {
            signed(v < 0, nearest(double::magnitude(v), 1))
        }
    }
}

/// `-a`.
pub open spec fn opposite(a: Single) -> Single {
    signed(!a.negative(), a.position())
}

/// `a / b`.
pub open spec fn quotient(a: Single, b: Single) -> Single {
    let negative = a.negative() != b.negative();
    if a.is_nan() || b.is_nan() {
        not_a_number()
    } else if a.is_infinite() {
        if b.is_infinite() {
            not_a_number()
        } else {
            signed(negative, INFINITY as nat)
        }
    } else if b.is_infinite() {
        signed(negative, 0)
    } else if b.position() == 0 {
        if a.position() == 0 {
            not_a_number()
        } else {
            signed(negative, INFINITY as nat)
        }
    } else {
        signed(
            negative,
            nearest(double::magnitude(a.units()) * power2::pow2(UNIT as nat), double::magnitude(b.units())),
        )
    }
}

/// The same number in double precision.
pub open spec fn widened(a: Single) -> Double {
    if a.is_nan() {
        double::not_a_number()
    } else if a.is_infinite() {
        double::signed(a.negative(), double::INFINITY as nat)
    } else {
        double::signed(
            a.negative(),
            double::nearest(double::magnitude(a.units()) * power2::pow2(925), 1),
        )
    }
}

impl Single {
    pub open spec fn negative(self) -> bool {
        self.bits >= SIGN
    }

    /// Position on the grid, sign aside.
    pub open spec fn position(self) -> nat {
        (if self.bits >= SIGN {
            self.bits - SIGN
        } else {
            self.bits as int
        }) as nat
    }

    pub open spec fn is_nan(self) -> bool {
        self.position() > INFINITY
    }

    pub open spec fn is_infinite(self) -> bool {
        self.position() == INFINITY
    }

    /// The exact value of a finite number, in units of `2^-149`.
    pub open spec fn units(self) -> int {
        let x = grid::number_at(self.position(), FRACTION as nat) as int;
        if self.negative() {
            -x
        } else {
            x
        }
    }

    /// Where the number stands in the order of all numbers; both zeros stand at
    /// zero.
    pub open spec fn rank(self) -> int {
        if self.negative() {
            -(self.position() as int)
        } else {
            self.position() as int
        }
    }

    /// `self >= other`: false as soon as one of them is not a number.
    pub open spec fn not_below(self, other: Single) -> bool {
        !self.is_nan() && !other.is_nan() && self.rank() >= other.rank()
    }

    /// The number without its sign.
    pub open spec fn absolute(self) -> Single {
        signed(false, self.position())
    }

    fn is_negative(self) -> (r: bool)
        ensures
            r == self.negative(),
    {
        self.bits >= SIGN
    }

    fn place(self) -> (k: u32)
        ensures
            k == self.position(),
    {
        if self.bits >= SIGN {
            self.bits - SIGN
        } else {
            self.bits
        }
    }

    fn build(negative: bool, k: u32) -> (r: Single)
        requires
            k <= INFINITY,
        ensures
            r == signed(negative, k as nat),
    {
        if negative {
            Single { bits: SIGN + k }
        } else {
            Single { bits: k }
        }
    }

    fn undefined() -> (r: Single)
        ensures
            r == not_a_number(),
    {
        Single { bits: 0x7fc0_0000 }
    }

    /// The nearest number to an integer.
    pub fn from_u64(v: u64) -> (r: Single)
        ensures
            r == of_integer(v as nat),
    {
        let k: u64 = grid::integer(v, FRACTION, INFINITY as u64, UNIT);
        Single::build(false, k as u32)
    }

    /// The number without its sign.
    pub fn abs(self) -> (r: Single)
        ensures
            r == self.absolute(),
    {
        Single { bits: self.place() }
    }

    /// `-self`.
    pub fn negate(self) -> (r: Single)
        ensures
            r == opposite(self),
    {
        if self.bits >= SIGN {
            Single { bits: self.bits - SIGN }
        } else {
            Single { bits: self.bits + SIGN }
        }
    }

    /// `self + other`.
    pub fn plus(self, other: Single) -> (r: Single)
        ensures
            r == sum(self, other),
    {
        let (a, b) = (self.place(), other.place());
        let (na, nb) = (self.is_negative(), other.is_negative());
        if a > INFINITY || b > INFINITY {
            return Single::undefined();
        }
        if a == INFINITY {
            if b == INFINITY && na != nb {
                return Single::undefined();
            }
            return self;
        }
        if b == INFINITY {
            return other;
        }
        proof {
            lemma_on_grid(a as nat);
            lemma_on_grid(b as nat);
            if a < b {
                grid::lemma_number_at_increases(a as nat, b as nat, 23);
            }
            if b < a {
                grid::lemma_number_at_increases(b as nat, a as nat, 23);
            }
        }
        if na == nb {
            let k: u64 = grid::plus(a as u64, b as u64, FRACTION, INFINITY as u64);
            proof {
                if self.units() + other.units() == 0 {
                    lemma_nearest_zero(1);
                }
            }
            Single::build(na, k as u32)
        } else if a == b {
            Single::build(false, 0)
        } else if a > b {
            let k: u64 = grid::minus(a as u64, b as u64, FRACTION, INFINITY as u64);
            Single::build(na, k as u32)
        } else {
            let k: u64 = grid::minus(b as u64, a as u64, FRACTION, INFINITY as u64);
            Single::build(nb, k as u32)
        }
    }

    /// `self - other`.
    pub fn minus(self, other: Single) -> (r: Single)
        ensures
            r == sum(self, opposite(other)),
    {
        self.plus(other.negate())
    }

    /// `self / other`.
    pub fn over(self, other: Single) -> (r: Single)
        ensures
            r == quotient(self, other),
    {
        let (a, b) = (self.place(), other.place());
        let negative: bool = self.is_negative() != other.is_negative();
        if a > INFINITY || b > INFINITY {
            return Single::undefined();
        }
        if a == INFINITY {
            if b == INFINITY {
                return Single::undefined();
            }
            return Single::build(negative, INFINITY);
        }
        if b == INFINITY {
            return Single::build(negative, 0);
        }
        if b == 0 {
            if a == 0 {
                return Single::undefined();
            }
            return Single::build(negative, INFINITY);
        }
        proof {
            lemma_on_grid(a as nat);
            lemma_on_grid(b as nat);
        }
        let k: u64 = grid::divide(a as u64, b as u64, FRACTION, INFINITY as u64, UNIT);
        Single::build(negative, k as u32)
    }

    /// `self >= other`.
    pub fn at_least(self, other: Single) -> (r: bool)
        ensures
            r == self.not_below(other),
    {
        let (a, b) = (self.place(), other.place());
        if a > INFINITY || b > INFINITY {
            return false;
        }
        if self.is_negative() {
            if other.is_negative() {
                a <= b
            } else {
                a == 0 && b == 0
            }
        } else {
            other.is_negative() || a >= b
        }
    }

    /// The same number in double precision.
    pub fn widen(self) -> (r: Double)
        ensures
            r == widened(self),
    {
        let k: u32 = self.place();
        if k > INFINITY {
            return Double { bits: 0x7ff8_0000_0000_0000 };
        }
        let wide: u64 = if k == INFINITY {
            double::INFINITY
        } else {
            proof {
                lemma_on_grid(k as nat);
            }
            let (m, e) = grid::decode(k as u64, FRACTION);
            let ghost n = grid::number_at(k as nat, 23) * power2::pow2(925);
            proof {
                power2::lemma_pow2_adds(e as nat, 925);
                let w = power2::pow2(e as nat);
                assert(n == m * (w * power2::pow2(925))) by (nonlinear_arith)
                    requires
                        n == (m * w) * power2::pow2(925),
                ;
                grid::lemma_whole(m as nat, e + 925, n);
                rounding::lemma_pow2_le(24, 120);
            }
            round_bits(
                m,
                e as i32 + 925,
                false,
                double::FRACTION,
                double::INFINITY,
                Ghost(n),
                Ghost(1),
            )
        };
        if self.is_negative() {
            Double { bits: double::SIGN + wide }
        } else {
            Double { bits: wide }
        }
    }
}

proof fn lemma_on_grid(k: nat)
    requires
        k < INFINITY,
    ensures
        grid::on_grid(k, FRACTION as nat),
        k > 0 ==> grid::number_at(k, FRACTION as nat) > 0,
        k == 0 ==> grid::number_at(k, FRACTION as nat) == 0,
{
    power2::lemma2_to64();
    if k > 0 {
        grid::lemma_number_at_increases(0, k, 23);
    }
}

pub proof fn lemma_nearest_zero(d: nat)
    requires
        d > 0,
    ensures
        nearest(0, d) == 0,
{
    power2::lemma2_to64();
    assert(0 < d * power2::pow2(24)) by (nonlinear_arith)
        requires
            d > 0,
            power2::pow2(24) > 0,
    ;
    rounding::lemma_doublings_are(0, d, 23, 0);
    assert(d * 1 == d) by (nonlinear_arith);
    assert(rounding::half_even(0, d) == 0);
}

/// A zero stays one in double precision.
pub proof fn lemma_widened_zero(a: Single)
    requires
        a.position() == 0,
    ensures
        widened(a).position() == 0,
{
    lemma_on_grid(0);
    double::lemma_nearest_zero(1);
    assert(0 * power2::pow2(925) == 0) by (nonlinear_arith);
}

} // verus!
