//! Double precision: 52 fraction bits, smallest number `2^-1074`.

use crate::float::grid;
use crate::float::rounding;
use vstd::arithmetic::power2;
use vstd::prelude::*;

verus! {

/// Fraction bits of the format.
pub const FRACTION: u32 = 52;

/// The smallest positive number is `2^-UNIT`.
pub const UNIT: u32 = 1074;

/// Position of infinity, one past the largest finite number.
pub const INFINITY: u64 = 0x7ff0_0000_0000_0000;

/// The sign bit.
pub const SIGN: u64 = 0x8000_0000_0000_0000;

/// A double-precision number, held as its bit pattern.
///
/// Equality is equality of bit patterns; [`Double::less`] is the ordering of
/// the numbers.
#[derive(Debug, Clone, Copy, PartialEq, Eq, Structural)]
pub struct Double {
    pub bits: u64,
}

/// The number with this sign and this position on the grid.
pub open spec fn signed(negative: bool, k: nat) -> Double {
    if negative {
        Double { bits: (SIGN + k) as u64 }
    } else {
        Double { bits: k as u64 }
    }
}

/// What an operation without a meaningful result gives.
pub open spec fn not_a_number() -> Double {
    Double { bits: 0x7ff8_0000_0000_0000 }
}

/// The number nearest to `n / d`, both counted in units of `2^-1074`.
pub open spec fn nearest(n: nat, d: nat) -> nat {
    rounding::nearest(n, d, FRACTION as nat, INFINITY as nat)
}

/// The number nearest to the quotient of two integers.
pub open spec fn of_quotient(n: nat, d: nat) -> Double {
    signed(false, nearest(n * power2::pow2(UNIT as nat), d))
}

/// The number nearest to an integer.
pub open spec fn of_integer(v: int) -> Double {
    signed(v < 0, nearest(magnitude(v) * power2::pow2(UNIT as nat), 1))
}

/// An integer without its sign.
pub open spec fn magnitude(v: int) -> nat {
    if v < 0 {
        (-v) as nat
    } else {
        v as nat
    }
}

/// `a + b`.
pub open spec fn sum(a: Double, b: Double) -> Double {
    if a.is_nan() || b.is_nan() {
        not_a_number()
    } else if a.is_infinite() {
        if b.is_infinite() && a.negative() != b.negative() {
            not_a_number()
        } else {
            a
        }
    } else if b.is_infinite() {
        b
    } else {
        let v = a.units() + b.units();
        if v == 0 {
            signed(a.negative() && b.negative(), 0)
        } else {
            signed(v < 0, nearest(magnitude(v), 1))
        }
    }
}

/// `-a`.
pub open spec fn opposite(a: Double) -> Double {
    signed(!a.negative(), a.position())
}

/// `a * b`.
pub open spec fn product(a: Double, b: Double) -> Double {
    let negative = a.negative() != b.negative();
    if a.is_nan() || b.is_nan() {
        not_a_number()
    } else if a.is_infinite() || b.is_infinite() {
        if a.position() == 0 || b.position() == 0 {
            not_a_number()
        } else {
            signed(negative, INFINITY as nat)
        }
    } else {
        signed(
            negative,
            nearest(magnitude(a.units()) * magnitude(b.units()), power2::pow2(UNIT as nat)),
        )
    }
}

/// `a / b`.
pub open spec fn quotient(a: Double, b: Double) -> Double {
    let negative = a.negative() != b.negative();
    if a.is_nan() || b.is_nan() {
        not_a_number()
    } else if a.is_infinite() {
        if b.is_infinite() {
            not_a_number()
        } else {
            signed(negative, INFINITY as nat)
        }
    } else if b.is_infinite() {
        signed(negative, 0)
    } else if b.position() == 0 {
        if a.position() == 0 {
            not_a_number()
        } else {
            signed(negative, INFINITY as nat)
        }
    } else {
        signed(
            negative,
            nearest(magnitude(a.units()) * power2::pow2(UNIT as nat), magnitude(b.units())),
        )
    }
}

/// The larger of two numbers; what is not a number loses.
pub open spec fn larger(a: Double, b: Double) -> Double {
    if a.is_nan() || a.below(b) {
        b
    } else {
        a
    }
}

/// The smaller of two numbers; what is not a number loses.
pub open spec fn smaller(a: Double, b: Double) -> Double {
    if a.is_nan() || b.below(a) {
        b
    } else {
        a
    }
}

impl Double {
    pub open spec fn negative(self) -> bool {
        self.bits >= SIGN
    }

    /// Position on the grid, sign aside.
    pub open spec fn position(self) -> nat {
        (if self.bits >= SIGN {
            self.bits - SIGN
        } else {
            self.bits as int
        }) as nat
    }

    pub open spec fn is_nan(self) -> bool {
        self.position() > INFINITY
    }

    pub open spec fn is_infinite(self) -> bool {
        self.position() == INFINITY
    }

    pub open spec fn is_finite(self) -> bool {
        self.position() < INFINITY
    }

    /// The exact value of a finite number, in units of `2^-1074`.
    pub open spec fn units(self) -> int {
        let x = grid::number_at(self.position(), FRACTION as nat) as int;
        if self.negative() {
            -x
        } else {
            x
        }
    }

    /// Where the number stands in the order of all numbers; both zeros stand at
    /// zero.
    pub open spec fn rank(self) -> int {
        if self.negative() {
            -(self.position() as int)
        } else {
            self.position() as int
        }
    }

    /// `self < other`: false as soon as one of them is not a number.
    pub open spec fn below(self, other: Double) -> bool {
        !self.is_nan() && !other.is_nan() && self.rank() < other.rank()
    }

    /// `self <= other`: false as soon as one of them is not a number.
    pub open spec fn not_above(self, other: Double) -> bool {
        !self.is_nan() && !other.is_nan() && self.rank() <= other.rank()
    }

    /// The integer part, with negative numbers and what is not a number at zero
    /// and everything too large at `u64::MAX`.
    pub open spec fn truncated(self) -> u64 {
        if self.is_nan() || self.negative() {
            0
        } else if self.is_infinite() || self.units() / power2::pow2(UNIT as nat) as int > u64::MAX {
            u64::MAX
        } else {
            (self.units() / power2::pow2(UNIT as nat) as int) as u64
        }
    }

    /// The least integer that is not below the number, with the same ends.
    pub open spec fn rounded_up(self) -> u64 {
        let one = power2::pow2(UNIT as nat) as int;
        if self.is_nan() || self.negative() {
            0
        } else if self.is_infinite() || (self.units() + one - 1) / one > u64::MAX {
            u64::MAX
        } else {
            ((self.units() + one - 1) / one) as u64
        }
    }

    pub fn is_negative(self) -> (r: bool)
        ensures
            r == self.negative(),
    {
        self.bits >= SIGN
    }

    pub fn place(self) -> (k: u64)
        ensures
            k == self.position(),
    {
        if self.bits >= SIGN {
            self.bits - SIGN
        } else {
            self.bits
        }
    }

    fn build(negative: bool, k: u64) -> (r: Double)
        requires
            k <= INFINITY,
        ensures
            r == signed(negative, k as nat),
    {
        if negative {
            Double { bits: SIGN + k }
        } else {
            Double { bits: k }
        }
    }

    fn undefined() -> (r: Double)
        ensures
            r == not_a_number(),
    {
        Double { bits: 0x7ff8_0000_0000_0000 }
    }

    /// The nearest number to an integer.
    pub fn from_u64(v: u64) -> (r: Double)
        ensures
            r == of_quotient(v as nat, 1),
    {
        let k: u64 = grid::integer(v, FRACTION, INFINITY, UNIT);
        Double::build(false, k)
    }

    /// The nearest number to an integer of either sign.
    pub fn from_i64(v: i64) -> (r: Double)
        ensures
            r == of_integer(v as int),
    {
        if v < 0 {
            let m: u64 = (-(v + 1)) as u64 + 1;
            let k: u64 = grid::integer(m, FRACTION, INFINITY, UNIT);
            Double::build(true, k)
        } else {
            Double::from_u64(v as u64)
        }
    }

    /// `-self`.
    pub fn negate(self) -> (r: Double)
        ensures
            r == opposite(self),
    {
        if self.bits >= SIGN {
            Double { bits: self.bits - SIGN }
        } else {
            Double { bits: self.bits + SIGN }
        }
    }

    /// `self + other`.
    pub fn plus(self, other: Double) -> (r: Double)
        ensures
            r == sum(self, other),
    {
        let (a, b) = (self.place(), other.place());
        let (na, nb) = (self.is_negative(), other.is_negative());
        if a > INFINITY || b > INFINITY {
            return Double::undefined();
        }
        if a == INFINITY {
            if b == INFINITY && na != nb {
                return Double::undefined();
            }
            return self;
        }
        if b == INFINITY {
            return other;
        }
        proof {
            lemma_on_grid(a as nat);
            lemma_on_grid(b as nat);
            if a < b {
                grid::lemma_number_at_increases(a as nat, b as nat, 52);
            }
            if b < a {
                grid::lemma_number_at_increases(b as nat, a as nat, 52);
            }
        }
        if na == nb {
            let k: u64 = grid::plus(a, b, FRACTION, INFINITY);
            proof {
                if self.units() + other.units() == 0 {
                    lemma_nearest_zero(1);
                }
            }
            Double::build(na, k)
        } else if a == b {
            Double::build(false, 0)
        } else if a > b {
            let k: u64 = grid::minus(a, b, FRACTION, INFINITY);
            Double::build(na, k)
        } else {
            let k: u64 = grid::minus(b, a, FRACTION, INFINITY);
            Double::build(nb, k)
        }
    }

    /// `self - other`.
    pub fn minus(self, other: Double) -> (r: Double)
        ensures
            r == sum(self, opposite(other)),
    {
        self.plus(other.negate())
    }

    /// `self * other`.
    pub fn times(self, other: Double) -> (r: Double)
        ensures
            r == product(self, other),
    {
        let (a, b) = (self.place(), other.place());
        let negative: bool = self.is_negative() != other.is_negative();
        if a > INFINITY || b > INFINITY {
            return Double::undefined();
        }
        if a == INFINITY || b == INFINITY {
            if a == 0 || b == 0 {
                return Double::undefined();
            }
            return Double::build(negative, INFINITY);
        }
        proof {
            lemma_on_grid(a as nat);
            lemma_on_grid(b as nat);
        }
        let k: u64 = grid::multiply(a, b, FRACTION, INFINITY, UNIT);
        Double::build(negative, k)
    }

    /// `self / other`.
    pub fn over(self, other: Double) -> (r: Double)
        ensures
            r == quotient(self, other),
    {
        let (a, b) = (self.place(), other.place());
        let negative: bool = self.is_negative() != other.is_negative();
        if a > INFINITY || b > INFINITY {
            return Double::undefined();
        }
        if a == INFINITY {
            if b == INFINITY {
                return Double::undefined();
            }
            return Double::build(negative, INFINITY);
        }
        if b == INFINITY {
            return Double::build(negative, 0);
        }
        if b == 0 {
            if a == 0 {
                return Double::undefined();
            }
            return Double::build(negative, INFINITY);
        }
        proof {
            lemma_on_grid(a as nat);
            lemma_on_grid(b as nat);
        }
        let k: u64 = grid::divide(a, b, FRACTION, INFINITY, UNIT);
        Double::build(negative, k)
    }

    /// The nearest number to the quotient of two integers that are small enough
    /// to be numbers themselves.
    pub fn from_quotient(n: u64, d: u64) -> (r: Double)
        requires
            n < 0x20_0000_0000_0000,
            0 < d < 0x20_0000_0000_0000,
        ensures
            r == of_quotient(n as nat, d as nat),
    {
        let a: Double = Double::from_u64(n);
        let b: Double = Double::from_u64(d);
        proof {
            lemma_small_integer(n as nat);
            lemma_small_integer(d as nat);
            lemma_quotient_of_integers(n as nat, d as nat);
        }
        a.over(b)
    }

    /// `self < other`.
    pub fn less(self, other: Double) -> (r: bool)
        ensures
            r == self.below(other),
    {
        let (a, b) = (self.place(), other.place());
        if a > INFINITY || b > INFINITY {
            return false;
        }
        if self.is_negative() {
            if other.is_negative() {
                b < a
            } else {
                a > 0 || b > 0
            }
        } else {
            !other.is_negative() && a < b
        }
    }

    /// `self <= other`.
    pub fn at_most(self, other: Double) -> (r: bool)
        ensures
            r == self.not_above(other),
    {
        let (a, b) = (self.place(), other.place());
        if a > INFINITY || b > INFINITY {
            return false;
        }
        !other.less(self)
    }

    /// The larger of two numbers; what is not a number loses.
    pub fn max(self, other: Double) -> (r: Double)
        ensures
            r == larger(self, other),
    {
        if self.place() > INFINITY || self.less(other) {
            other
        } else {
            self
        }
    }

    /// The smaller of two numbers; what is not a number loses.
    pub fn min(self, other: Double) -> (r: Double)
        ensures
            r == smaller(self, other),
    {
        if self.place() > INFINITY || other.less(self) {
            other
        } else {
            self
        }
    }

    /// The number without its fraction, as an integer that saturates at both
    /// ends of its range.
    pub fn to_u64(self) -> (r: u64)
        ensures
            r == self.truncated(),
    {
        let k: u64 = self.place();
        if k > INFINITY || self.is_negative() {
            return 0;
        }
        if k == INFINITY {
            return u64::MAX;
        }
        proof {
            lemma_on_grid(k as nat);
        }
        grid::integer_part(k, FRACTION, UNIT).0
    }

    /// The number rounded up to an integer that saturates at both ends of its
    /// range.
    pub fn ceil_to_u64(self) -> (r: u64)
        ensures
            r == self.rounded_up(),
    {
        let k: u64 = self.place();
        if k > INFINITY || self.is_negative() {
            return 0;
        }
        if k == INFINITY {
            return u64::MAX;
        }
        proof {
            lemma_on_grid(k as nat);
            let x = grid::number_at(k as nat, 52) as int;
            let u = power2::pow2(UNIT as nat) as int;
            power2::lemma_pow2_pos(UNIT as nat);
            lemma_ceiling(x, u);
        }
        let (whole, more) = grid::integer_part(k, FRACTION, UNIT);
        if more {
            whole + 1
        } else {
            whole
        }
    }
}

/// Rounding up adds one exactly when something is left over.
proof fn lemma_ceiling(x: int, u: int)
    requires
        x >= 0,
        u > 0,
    ensures
        (x + u - 1) / u == if x % u == 0 {
            x / u
        } else {
            x / u + 1
        },
{
    let q = x / u;
    let r = x % u;
    vstd::arithmetic::div_mod::lemma_fundamental_div_mod(x, u);
    if r == 0 {
        assert(x + u - 1 == q * u + (u - 1)) by (nonlinear_arith)
            requires
                x == u * q + r,
                r == 0,
        ;
        vstd::arithmetic::div_mod::lemma_fundamental_div_mod_converse(x + u - 1, u, q, u - 1);
    } else {
        assert(x + u - 1 == (q + 1) * u + (r - 1)) by (nonlinear_arith)
            requires
                x == u * q + r,
        ;
        vstd::arithmetic::div_mod::lemma_fundamental_div_mod_converse(x + u - 1, u, q + 1, r - 1);
    }
}

pub proof fn lemma_on_grid(k: nat)
    requires
        k < INFINITY,
    ensures
        grid::on_grid(k, FRACTION as nat),
        k > 0 ==> grid::number_at(k, FRACTION as nat) > 0,
        k == 0 ==> grid::number_at(k, FRACTION as nat) == 0,
{
    power2::lemma2_to64_rest();
    if k > 0 {
        grid::lemma_number_at_increases(0, k, 52);
    }
}

pub proof fn lemma_nearest_zero(d: nat)
    requires
        d > 0,
    ensures
        nearest(0, d) == 0,
{
    power2::lemma2_to64();
    power2::lemma_pow2_pos(53);
    assert(0 < d * power2::pow2(53)) by (nonlinear_arith)
        requires
            d > 0,
            power2::pow2(53) > 0,
    ;
    rounding::lemma_doublings_are(0, d, 52, 0);
    assert(d * 1 == d) by (nonlinear_arith);
    assert(rounding::half_even(0, d) == 0);
}

/// `v * 2^e` written with as many significant bits as the format has.
pub proof fn lemma_normal_form(v: nat, e: nat) -> (r: (nat, nat))
    requires
        v < power2::pow2(53),
    ensures
        r.0 * power2::pow2(r.1) == v * power2::pow2(e),
        r.0 < power2::pow2(53),
        r.1 > 0 ==> r.0 >= power2::pow2(52),
        r.1 <= e,
    decreases e,
{
    power2::lemma_pow2_unfold(53);
    if e == 0 || v >= power2::pow2(52) {
        (v, e)
    } else {
        power2::lemma_pow2_unfold(e);
        assert((2 * v) * power2::pow2((e - 1) as nat) == v * power2::pow2(e)) by (nonlinear_arith)
            requires
                power2::pow2(e) == 2 * power2::pow2((e - 1) as nat),
        ;
        lemma_normal_form(2 * v, (e - 1) as nat)
    }
}

/// The number that a significand and an exponent stand for.
proof fn lemma_number_at_parts(q: nat, e: nat)
    requires
        q < power2::pow2(53),
        e > 0 ==> q >= power2::pow2(52),
    ensures
        grid::number_at(e * power2::pow2(52) + q, 52) == q * power2::pow2(e),
{
    grid::lemma_number_at_parts(q, e, 52);
}

/// Integers below `2^53` are numbers.
pub proof fn lemma_small_integer(v: nat)
    requires
        v < 0x20_0000_0000_0000,
    ensures
        of_quotient(v, 1).is_finite(),
        !of_quotient(v, 1).negative(),
        of_quotient(v, 1).units() == v * power2::pow2(UNIT as nat),
        of_quotient(v, 1).position() == 0 <==> v == 0,
{
    power2::lemma2_to64_rest();
    let (q, e) = lemma_normal_form(v, UNIT as nat);
    let w = power2::pow2(e);
    assert(q * (1 * w) == q * w) by (nonlinear_arith);
    assert(e * power2::pow2(52) + q < INFINITY) by (nonlinear_arith)
        requires
            e <= 1074,
            q < 0x20_0000_0000_0000,
            power2::pow2(52) == 0x10_0000_0000_0000,
    ;
    rounding::lemma_nearest_exact(v * power2::pow2(UNIT as nat), 1, q, e, 52, INFINITY as nat);
    lemma_number_at_parts(q, e);
    power2::lemma_pow2_pos(UNIT as nat);
    assert(v == 0 <==> v * power2::pow2(UNIT as nat) == 0) by (nonlinear_arith)
        requires
            power2::pow2(UNIT as nat) > 0,
    ;
    lemma_on_grid(e * power2::pow2(52) + q);
}

/// Dividing two small integers rounds their exact quotient once.
pub proof fn lemma_quotient_of_integers(n: nat, d: nat)
    requires
        n < 0x20_0000_0000_0000,
        0 < d < 0x20_0000_0000_0000,
    ensures
        quotient(of_quotient(n, 1), of_quotient(d, 1)) == of_quotient(n, d),
{
    lemma_small_integer(n);
    lemma_small_integer(d);
    let u = power2::pow2(UNIT as nat);
    power2::lemma_pow2_pos(UNIT as nat);
    rounding::lemma_nearest_scales(n * u, d, u, 52, INFINITY as nat);
    assert(n * u >= 0) by (nonlinear_arith);
    assert(d * u >= 0) by (nonlinear_arith);
}

/// Every `u64` has a finite nearest number.
pub proof fn lemma_integer_is_finite(v: u64)
    ensures
        of_quotient(v as nat, 1).is_finite(),
        !of_quotient(v as nat, 1).negative(),
{
    power2::lemma2_to64();
    power2::lemma2_to64_rest();
    let u = power2::pow2(UNIT as nat);
    power2::lemma_pow2_adds(64, UNIT as nat);
    power2::lemma_pow2_adds(52, 1086);
    let top = power2::pow2(64) * u;
    assert((v as nat * u) * 1 <= top * 1) by (nonlinear_arith)
        requires
            v < power2::pow2(64),
            top == power2::pow2(64) * u,
    ;
    rounding::lemma_nearest_monotonic(v as nat * u, 1, top, 1, 52, INFINITY as nat);
    assert(top == power2::pow2(52) * (1 * power2::pow2(1086))) by (nonlinear_arith)
        requires
            top == power2::pow2(1138),
            power2::pow2(1138) == power2::pow2(52) * power2::pow2(1086),
    ;
    power2::lemma_pow2_unfold(53);
    rounding::lemma_nearest_exact(top, 1, power2::pow2(52), 1086, 52, INFINITY as nat);
}

/// Multiplying by a non-negative finite number keeps the order of non-negative
/// finite numbers, and so does rounding the products up.
pub proof fn lemma_product_monotonic(a: Double, b: Double, c: Double)
    requires
        a.is_finite(),
        b.is_finite(),
        c.is_finite(),
        !c.negative(),
        0 <= a.rank() <= b.rank(),
    ensures
        product(a, c).rounded_up() <= product(b, c).rounded_up(),
{
    let (x, y, z) = (magnitude(a.units()), magnitude(b.units()), magnitude(c.units()));
    if a.position() < b.position() {
        grid::lemma_number_at_increases(a.position(), b.position(), 52);
    }
    let u = power2::pow2(UNIT as nat);
    power2::lemma_pow2_pos(UNIT as nat);
    assert((x * z) * u <= (y * z) * u) by (nonlinear_arith)
        requires
            0 <= x <= y,
            z >= 0,
            u > 0,
    ;
    rounding::lemma_nearest_monotonic(x * z, u, y * z, u, 52, INFINITY as nat);
    let (j, k) = (nearest(x * z, u), nearest(y * z, u));
    if a.negative() || b.negative() {
        lemma_on_grid(0);
        lemma_nearest_zero(u);
        assert(x * z == 0) by (nonlinear_arith)
            requires
                x == 0,
        ;
        lemma_ceiling(0, u as int);
        vstd::arithmetic::div_mod::lemma_small_mod(0, u);
        vstd::arithmetic::div_mod::lemma_basic_div(0, u as int);
        assert(product(a, c).rounded_up() == 0);
    }
    if j < k {
        grid::lemma_number_at_increases(j, k, 52);
    }
    let (m, n) = (grid::number_at(j, 52) as int, grid::number_at(k, 52) as int);
    vstd::arithmetic::div_mod::lemma_div_is_ordered(m + u - 1, n + u - 1, u as int);
}

/// One times an integer is that integer.
pub proof fn lemma_product_with_one(v: nat)
    requires
        v < 0x20_0000_0000_0000,
    ensures
        product(of_quotient(1, 1), of_quotient(v, 1)) == of_quotient(v, 1),
{
    lemma_small_integer(1);
    lemma_small_integer(v);
    let u = power2::pow2(UNIT as nat);
    power2::lemma_pow2_pos(UNIT as nat);
    assert(1 * u == u) by (nonlinear_arith);
    assert(v * u >= 0) by (nonlinear_arith);
    assert(u * (v * u) == (v * u) * u) by (nonlinear_arith);
    rounding::lemma_nearest_scales(v * u, 1, u, 52, INFINITY as nat);
}

/// An integer is its own ceiling.
pub proof fn lemma_rounded_up_integer(v: nat)
    requires
        v < 0x20_0000_0000_0000,
    ensures
        of_quotient(v, 1).rounded_up() == v,
{
    lemma_small_integer(v);
    let u = power2::pow2(UNIT as nat) as int;
    power2::lemma_pow2_pos(UNIT as nat);
    lemma_ceiling(v * u, u);
    vstd::arithmetic::div_mod::lemma_fundamental_div_mod_converse(v * u, u, v as int, 0);
}

/// Numbers nearest to integers are ordered like the integers.
pub proof fn lemma_integers_are_ordered(a: u64, b: u64)
    requires
        a <= b,
    ensures
        of_quotient(a as nat, 1).is_finite(),
        of_quotient(b as nat, 1).is_finite(),
        0 <= of_quotient(a as nat, 1).rank() <= of_quotient(b as nat, 1).rank(),
        b > 0 ==> of_quotient(b as nat, 1).rank() > 0,
{
    lemma_integer_is_finite(a);
    lemma_integer_is_finite(b);
    let u = power2::pow2(UNIT as nat);
    assert((a as nat * u) * 1 <= (b as nat * u) * 1) by (nonlinear_arith)
        requires
            a <= b,
    ;
    rounding::lemma_nearest_monotonic(a as nat * u, 1, b as nat * u, 1, 52, INFINITY as nat);
    if b > 0 {
        assert((1 * u) * 1 <= (b as nat * u) * 1) by (nonlinear_arith)
            requires
                b >= 1,
        ;
        rounding::lemma_nearest_monotonic(1 * u, 1, b as nat * u, 1, 52, INFINITY as nat);
        lemma_small_integer(1);
    }
}

/// A share of a larger number lies between zero and one.
pub proof fn lemma_share(a: Double, b: Double)
    requires
        a.is_finite(),
        b.is_finite(),
        0 <= a.rank() <= b.rank(),
        b.rank() > 0,
    ensures
        quotient(a, b).is_finite(),
        0 <= quotient(a, b).rank() <= of_quotient(1, 1).rank(),
{
    let u = power2::pow2(UNIT as nat);
    power2::lemma_pow2_pos(UNIT as nat);
    let (x, y) = (magnitude(a.units()), magnitude(b.units()));
    lemma_on_grid(b.position());
    if a.position() < b.position() {
        grid::lemma_number_at_increases(a.position(), b.position(), 52);
    }
    assert((x * u) * 1 <= (1 * u) * y) by (nonlinear_arith)
        requires
            0 <= x <= y,
            u > 0,
    ;
    rounding::lemma_nearest_monotonic(x * u, y, 1 * u, 1, 52, INFINITY as nat);
    lemma_small_integer(1);
    if a.negative() {
        lemma_on_grid(0);
        assert(x * u == 0) by (nonlinear_arith)
            requires
                x == 0,
        ;
        lemma_nearest_zero(y);
    }
}

/// Quotients with one divisor are ordered like their dividends.
pub proof fn lemma_quotients_are_ordered(a: nat, b: nat, d: nat)
    requires
        a <= b <= d,
        d > 0,
    ensures
        of_quotient(a, d).is_finite(),
        of_quotient(b, d).is_finite(),
        0 <= of_quotient(a, d).rank() <= of_quotient(b, d).rank(),
{
    let u = power2::pow2(UNIT as nat);
    assert((a * u) * d <= (b * u) * d) by (nonlinear_arith)
        requires
            a <= b,
    ;
    assert((b * u) * 1 <= (1 * u) * d) by (nonlinear_arith)
        requires
            b <= d,
    ;
    rounding::lemma_nearest_monotonic(a * u, d, b * u, d, 52, INFINITY as nat);
    rounding::lemma_nearest_monotonic(b * u, d, 1 * u, 1, 52, INFINITY as nat);
    lemma_small_integer(1);
}

/// A number between zero and one times an integer is at most that integer.
pub proof fn lemma_part_of(x: Double, v: nat)
    requires
        x.is_finite(),
        0 <= x.rank() <= of_quotient(1, 1).rank(),
        v < 0x20_0000_0000_0000,
    ensures
        product(x, of_quotient(v, 1)).is_finite(),
        0 <= product(x, of_quotient(v, 1)).rank() <= of_quotient(v, 1).rank(),
{
    let one = of_quotient(1, 1);
    let c = of_quotient(v, 1);
    lemma_small_integer(1);
    lemma_small_integer(v);
    lemma_product_with_one(v);
    let u = power2::pow2(UNIT as nat);
    power2::lemma_pow2_pos(UNIT as nat);
    let (a, b, z) = (magnitude(x.units()), magnitude(one.units()), magnitude(c.units()));
    if x.position() < one.position() {
        grid::lemma_number_at_increases(x.position(), one.position(), 52);
    }
    assert((a * z) * u <= (b * z) * u) by (nonlinear_arith)
        requires
            0 <= a <= b,
            z >= 0,
            u > 0,
    ;
    rounding::lemma_nearest_monotonic(a * z, u, b * z, u, 52, INFINITY as nat);
    if x.negative() {
        lemma_on_grid(0);
        lemma_nearest_zero(u);
        assert(a * z == 0) by (nonlinear_arith)
            requires
                a == 0,
        ;
    }
}

/// Adding small integers rounds nothing, whichever zero the sum starts from.
pub proof fn lemma_sum_of_integers(a: nat, b: nat)
    requires
        a + b < 0x20_0000_0000_0000,
    ensures
        sum(of_quotient(a, 1), of_quotient(b, 1)) == of_quotient(a + b, 1),
        sum(opposite(of_quotient(0, 1)), of_quotient(b, 1)) == of_quotient(b, 1),
{
    lemma_small_integer(0);
    lemma_small_integer(a);
    lemma_small_integer(b);
    lemma_small_integer(a + b);
    lemma_on_grid(0);
    let u = power2::pow2(UNIT as nat);
    power2::lemma_pow2_pos(UNIT as nat);
    assert((a + b) * u == a * u + b * u) by (nonlinear_arith);
    assert(a + b > 0 ==> (a + b) * u > 0) by (nonlinear_arith)
        requires
            u > 0,
    ;
    assert(b > 0 ==> b * u > 0) by (nonlinear_arith)
        requires
            u > 0,
    ;
    assert(0 * u == 0) by (nonlinear_arith);
    if a + b == 0 {
        assert(of_quotient(0, 1).position() == 0);
    }
}

/// The quotient of a multiple by its factor is the other factor.
pub proof fn lemma_exact_quotient(v: nat, n: nat)
    requires
        n > 0,
        n < 0x20_0000_0000_0000,
        n * v < 0x20_0000_0000_0000,
    ensures
        quotient(of_quotient(n * v, 1), of_quotient(n, 1)) == of_quotient(v, 1),
{
    lemma_quotient_of_integers(n * v, n);
    let u = power2::pow2(UNIT as nat);
    rounding::lemma_nearest_scales(v * u, 1, n, 52, INFINITY as nat);
    assert((n * v) * u == (v * u) * n) by (nonlinear_arith);
    assert(1 * n == n) by (nonlinear_arith);
}

impl Double {
    /// Zero, of either sign, or not a number at all.
    pub open spec fn is_naught(self) -> bool {
        self.position() == 0 || self.is_nan()
    }
}

/// Nothing comes of nothing: zero stays zero in sums with itself, and in
/// products and quotients with anything but what makes them undefined.
pub proof fn lemma_naught(a: Double, b: Double)
    requires
        a.is_naught(),
    ensures
        b.is_naught() ==> sum(a, b).is_naught(),
        product(a, b).is_naught(),
        product(b, a).is_naught(),
        b.position() != 0 ==> quotient(a, b).is_naught(),
{
    let u = power2::pow2(UNIT as nat);
    power2::lemma_pow2_pos(UNIT as nat);
    lemma_on_grid(0);
    lemma_nearest_zero(u);
    if a.position() == 0 && b.is_finite() {
        let y = magnitude(b.units());
        assert(0 * y == 0 && y * 0 == 0) by (nonlinear_arith);
        if b.position() != 0 {
            lemma_on_grid(b.position());
            assert(0 * u == 0) by (nonlinear_arith);
            lemma_nearest_zero(y);
        }
    }
}

/// Dividing by a positive number keeps the order of numbers that are not
/// negative.
pub proof fn lemma_quotient_keeps_order(a: Double, b: Double, c: Double)
    requires
        a.is_finite(),
        b.is_finite(),
        c.is_finite(),
        !a.negative(),
        !b.negative(),
        !c.negative(),
        c.position() > 0,
        a.rank() <= b.rank(),
    ensures
        !quotient(a, c).is_nan(),
        !quotient(b, c).is_nan(),
        0 <= quotient(a, c).rank() <= quotient(b, c).rank(),
        !quotient(a, c).negative() && !quotient(b, c).negative(),
{
    let (x, y, z) = (magnitude(a.units()), magnitude(b.units()), magnitude(c.units()));
    lemma_on_grid(c.position());
    if a.position() < b.position() {
        grid::lemma_number_at_increases(a.position(), b.position(), 52);
    }
    let u = power2::pow2(UNIT as nat);
    assert((x * u) * z <= (y * u) * z) by (nonlinear_arith)
        requires
            0 <= x <= y,
            u >= 0,
            z >= 0,
    ;
    rounding::lemma_nearest_monotonic(x * u, z, y * u, z, 52, INFINITY as nat);
}

/// Multiplying by a positive number keeps the order of numbers that are not
/// negative.
pub proof fn lemma_product_keeps_order(a: Double, b: Double, c: Double)
    requires
        !a.is_nan(),
        !b.is_nan(),
        c.is_finite(),
        !a.negative(),
        !b.negative(),
        !c.negative(),
        c.position() > 0,
        a.rank() <= b.rank(),
    ensures
        !product(a, c).is_nan(),
        !product(b, c).is_nan(),
        0 <= product(a, c).rank() <= product(b, c).rank(),
        !product(a, c).negative() && !product(b, c).negative(),
{
    let (x, y, z) = (magnitude(a.units()), magnitude(b.units()), magnitude(c.units()));
    if a.position() < b.position() {
        grid::lemma_number_at_increases(a.position(), b.position(), 52);
    }
    let u = power2::pow2(UNIT as nat);
    power2::lemma_pow2_pos(UNIT as nat);
    assert((x * z) * u <= (y * z) * u) by (nonlinear_arith)
        requires
            0 <= x <= y,
            u >= 0,
            z >= 0,
    ;
    rounding::lemma_nearest_monotonic(x * z, u, y * z, u, 52, INFINITY as nat);
}

} // verus!
