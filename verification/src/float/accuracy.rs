//! How far rounding moves a double-precision number from the exact result.

use crate::float::double;
use crate::float::double::Double;
use crate::float::grid;
use crate::float::rounding;
use crate::float::single;
use crate::float::single::Single;
use vstd::arithmetic::power2;
use vstd::prelude::*;

verus! {

/// How many of the smallest numbers make up one.
pub open spec fn one() -> nat {
    power2::pow2(double::UNIT as nat)
}

/// Distance between two integers.
pub open spec fn apart(a: int, b: int) -> nat {
    (if a < b {
        b - a
    } else {
        a - b
    }) as nat
}

/// `x` is `n / d` up to `k` parts in `2^53` of it.
pub open spec fn near(x: Double, n: int, d: int, k: nat) -> bool {
    &&& x.is_finite()
    &&& apart(x.units() * d, n * one()) * 0x20_0000_0000_0000 <= k * (double::magnitude(n) * one())
}

/// One is large next to the smallest number, and small next to the largest.
pub proof fn lemma_scale()
    ensures
        power2::pow2(52) == 0x10_0000_0000_0000,
        power2::pow2(53) == 0x20_0000_0000_0000,
        power2::pow2(200) >= 0x1_0000_0000_0000_0000 * 0x1_0000_0000_0000_0000
            * 0x1_0000_0000_0000_0000,
        one() >= power2::pow2(200),
        power2::pow2(2000) >= one() * power2::pow2(200),
{
    power2::lemma2_to64();
    power2::lemma2_to64_rest();
    power2::lemma_pow2_adds(64, 64);
    power2::lemma_pow2_adds(64, 128);
    rounding::lemma_pow2_le(192, 200);
    rounding::lemma_pow2_le(200, 1074);
    power2::lemma_pow2_adds(1074, 200);
    rounding::lemma_pow2_le(1274, 2000);
    assert(power2::pow2(192) == power2::pow2(64) * power2::pow2(128));
}

/// A quotient that is not out of all proportion is rounded to a finite number,
/// off by at most one part in `2^53`.
pub proof fn lemma_rounded(n: nat, d: nat)
    requires
        d > 0,
        d * power2::pow2(52) <= n <= d * power2::pow2(2000),
    ensures
        double::nearest(n, d) < double::INFINITY,
        double::nearest(n, d) > 0,
        apart((grid::number_at(double::nearest(n, d), 52) * d) as int, n as int)
            * 0x20_0000_0000_0000 <= n,
{
    lemma_scale();
    let top = power2::pow2(2000);
    power2::lemma_pow2_adds(52, 1948);
    let t = power2::pow2(1948);
    assert(top == power2::pow2(52) * (1 * t)) by (nonlinear_arith)
        requires
            top == power2::pow2(52) * t,
    ;
    power2::lemma_pow2_unfold(53);
    rounding::lemma_nearest_exact(top, 1, power2::pow2(52), 1948, 52, double::INFINITY as nat);
    assert(n * 1 <= top * d) by (nonlinear_arith)
        requires
            n <= d * top,
    ;
    rounding::lemma_nearest_monotonic(n, d, top, 1, 52, double::INFINITY as nat);
    grid::lemma_nearest_error(n, d, 52, double::INFINITY as nat);
    let x = grid::number_at(double::nearest(n, d), 52);
    if double::nearest(n, d) == 0 {
        double::lemma_on_grid(0);
        assert(x * d == 0) by (nonlinear_arith)
            requires
                x == 0,
        ;
        assert(n > 0) by (nonlinear_arith)
            requires
                n >= d * power2::pow2(52),
                d > 0,
                power2::pow2(52) > 0,
        ;
        assert(n * power2::pow2(53) <= n);
        assert(false) by (nonlinear_arith)
            requires
                n * power2::pow2(53) <= n,
                n > 0,
                power2::pow2(53) == 0x20_0000_0000_0000,
        ;
    }
}

/// The exact value of a number that was built from its position.
proof fn lemma_signed(negative: bool, k: nat)
    requires
        k < double::INFINITY,
    ensures
        double::signed(negative, k).is_finite(),
        double::signed(negative, k).negative() == negative,
        double::magnitude(double::signed(negative, k).units()) == grid::number_at(k, 52),
{
}

/// The number nearest to a `u64` is off by at most one part in `2^53`.
pub proof fn lemma_integer_near(v: u64)
    ensures
        near(double::of_quotient(v as nat, 1), v as int, 1, 1),
        !double::of_quotient(v as nat, 1).negative(),
        v > 0 <==> double::of_quotient(v as nat, 1).units() > 0,
        v * one() <= 2 * double::of_quotient(v as nat, 1).units() <= 4 * (v * one()),
{
    let n = v as nat * one();
    let x = double::of_quotient(v as nat, 1);
    lemma_scale();
    if v == 0 {
        double::lemma_small_integer(0);
        assert(0 * one() == 0) by (nonlinear_arith);
    } else {
        let b = power2::pow2(200);
        assert(1 * power2::pow2(52) <= n <= 1 * power2::pow2(2000)) by (nonlinear_arith)
            requires
                n == v * one(),
                1 <= v <= 0xffff_ffff_ffff_ffff,
                one() >= b,
                b >= 0x1_0000_0000_0000_0000 * 0x1_0000_0000_0000_0000 * 0x1_0000_0000_0000_0000,
                power2::pow2(52) == 0x10_0000_0000_0000,
                power2::pow2(2000) >= one() * b,
        ;
        lemma_rounded(n, 1);
        lemma_signed(false, double::nearest(n, 1));
        assert(x.units() * 1 == x.units()) by (nonlinear_arith);
        double::lemma_on_grid(double::nearest(n, 1));
        assert(1 * (double::magnitude(v as int) * one()) == n) by (nonlinear_arith)
            requires
                n == v * one(),
                double::magnitude(v as int) == v,
        ;
    }
}

/// Dividing is off by at most one part in `2^53`.
pub proof fn lemma_quotient_near(a: Double, b: Double)
    requires
        a.is_finite(),
        b.is_finite(),
        b.position() > 0,
        double::magnitude(b.units()) * power2::pow2(52) <= double::magnitude(a.units()) * one()
            <= double::magnitude(b.units()) * power2::pow2(2000),
    ensures
        ({
            let r = double::quotient(a, b);
            &&& r.is_finite()
            &&& r.position() > 0
            &&& r.negative() == (a.negative() != b.negative())
            &&& apart(
                (double::magnitude(r.units()) * double::magnitude(b.units())) as int,
                (double::magnitude(a.units()) * one()) as int,
            ) * 0x20_0000_0000_0000 <= double::magnitude(a.units()) * one()
        }),
{
    let (x, y) = (double::magnitude(a.units()), double::magnitude(b.units()));
    double::lemma_on_grid(b.position());
    lemma_rounded(x * one(), y);
    lemma_signed(a.negative() != b.negative(), double::nearest(x * one(), y));
}

/// Multiplying is off by at most one part in `2^53`.
pub proof fn lemma_product_near(a: Double, b: Double)
    requires
        a.is_finite(),
        b.is_finite(),
        one() * power2::pow2(52) <= double::magnitude(a.units()) * double::magnitude(b.units())
            <= one() * power2::pow2(2000),
    ensures
        ({
            let r = double::product(a, b);
            &&& r.is_finite()
            &&& r.position() > 0
            &&& r.negative() == (a.negative() != b.negative())
            &&& apart(
                (double::magnitude(r.units()) * one()) as int,
                (double::magnitude(a.units()) * double::magnitude(b.units())) as int,
            ) * 0x20_0000_0000_0000 <= double::magnitude(a.units()) * double::magnitude(b.units())
        }),
{
    let (x, y) = (double::magnitude(a.units()), double::magnitude(b.units()));
    power2::lemma_pow2_pos(double::UNIT as nat);
    lemma_rounded(x * y, one());
    lemma_signed(a.negative() != b.negative(), double::nearest(x * y, one()));
}

/// Two terms that are each off by one part in `m`, and a quotient of them that is
/// off by another, come to a quotient that is off by at most four.
proof fn lemma_three_roundings(n: int, d: int, a: int, b: int, r: int, u: int, m: int)
    requires
        n >= 0,
        d > 0,
        a >= 0,
        b > 0,
        r >= 0,
        u > 0,
        m >= 5,
        n * u * (m - 1) <= a * m <= n * u * (m + 1),
        d * u * (m - 1) <= b * m <= d * u * (m + 1),
        a * u * (m - 1) <= r * b * m <= a * u * (m + 1),
    ensures
        n * u * (m - 4) <= r * d * m <= n * u * (m + 4),
{
    let x = r * d;
    let y = n * u;
    // from above
    assert(x * u * (m - 1) <= r * b * m) by (nonlinear_arith)
        requires
            x == r * d,
            r >= 0,
            d * u * (m - 1) <= b * m,
    ;
    assert(x * u * (m - 1) * m <= a * u * (m + 1) * m) by (nonlinear_arith)
        requires
            x * u * (m - 1) <= r * b * m,
            r * b * m <= a * u * (m + 1),
            m > 0,
    ;
    assert(a * u * (m + 1) * m <= y * (m + 1) * u * (m + 1)) by (nonlinear_arith)
        requires
            a * m <= y * (m + 1),
            u > 0,
            m > 0,
    ;
    assert(x * (m - 1) * m <= y * (m + 1) * (m + 1)) by (nonlinear_arith)
        requires
            x * u * (m - 1) * m <= y * (m + 1) * u * (m + 1),
            u > 0,
    ;
    assert((m + 1) * (m + 1) <= (m + 4) * (m - 1)) by (nonlinear_arith)
        requires
            m >= 5,
    ;
    assert(y >= 0) by (nonlinear_arith)
        requires
            y == n * u,
            n >= 0,
            u > 0,
    ;
    assert(x * m <= y * (m + 4)) by (nonlinear_arith)
        requires
            x * (m - 1) * m <= y * (m + 1) * (m + 1),
            (m + 1) * (m + 1) <= (m + 4) * (m - 1),
            y >= 0,
            m >= 5,
    ;
    // from below
    assert(x * u * (m + 1) >= r * b * m) by (nonlinear_arith)
        requires
            x == r * d,
            r >= 0,
            d * u * (m + 1) >= b * m,
    ;
    assert(x * u * (m + 1) * m >= a * u * (m - 1) * m) by (nonlinear_arith)
        requires
            x * u * (m + 1) >= r * b * m,
            r * b * m >= a * u * (m - 1),
            m > 0,
    ;
    assert(a * u * (m - 1) * m >= y * (m - 1) * u * (m - 1)) by (nonlinear_arith)
        requires
            a * m >= y * (m - 1),
            u > 0,
            m > 1,
    ;
    assert(x * (m + 1) * m >= y * (m - 1) * (m - 1)) by (nonlinear_arith)
        requires
            x * u * (m + 1) * m >= y * (m - 1) * u * (m - 1),
            u > 0,
    ;
    assert((m - 1) * (m - 1) >= (m - 4) * (m + 1)) by (nonlinear_arith)
        requires
            m >= 5,
    ;
    assert(x * m >= y * (m - 4)) by (nonlinear_arith)
        requires
            x * (m + 1) * m >= y * (m - 1) * (m - 1),
            (m - 1) * (m - 1) >= (m - 4) * (m + 1),
            y >= 0,
            m >= 5,
    ;
}

/// The quotient of two integers is off by at most four parts in `2^53`, the
/// rounding of both integers among them.
pub proof fn lemma_integers_divide_near(n: u64, d: u64)
    requires
        d > 0,
    ensures
        near(
            double::quotient(double::of_quotient(n as nat, 1), double::of_quotient(d as nat, 1)),
            n as int,
            d as int,
            4,
        ),
        !double::quotient(
            double::of_quotient(n as nat, 1),
            double::of_quotient(d as nat, 1),
        ).negative(),
{
    let (a, b) = (double::of_quotient(n as nat, 1), double::of_quotient(d as nat, 1));
    let r = double::quotient(a, b);
    let u = one();
    lemma_integer_near(n);
    lemma_integer_near(d);
    lemma_scale();
    let (x, y) = (a.units(), b.units());
    assert(x * 1 == x && y * 1 == y) by (nonlinear_arith);
    double::lemma_on_grid(0);
    if n == 0 {
        double::lemma_small_integer(0);
        assert(0 * u == 0) by (nonlinear_arith);
        double::lemma_on_grid(b.position());
        double::lemma_nearest_zero(y as nat);
        assert(0 * (d as int) == 0) by (nonlinear_arith);
        assert(r.position() == 0);
    } else {
        let g = power2::pow2(200);
        let big = power2::pow2(2000);
        assert(y * power2::pow2(52) <= x * u <= y * big) by (nonlinear_arith)
            requires
                2 * x >= n * u,
                x <= 2 * (n * u),
                2 * y >= d * u,
                y <= 2 * (d * u),
                1 <= n <= 0xffff_ffff_ffff_ffff,
                1 <= d <= 0xffff_ffff_ffff_ffff,
                u >= g,
                g >= 0x1_0000_0000_0000_0000 * 0x1_0000_0000_0000_0000 * 0x1_0000_0000_0000_0000,
                power2::pow2(52) == 0x10_0000_0000_0000,
                big >= u * g,
        ;
        lemma_quotient_near(a, b);
        let m: int = 0x20_0000_0000_0000;
        let z = r.units();
        let (nu, du, xu) = (n * u, d * u, x * u);
        lemma_two_sided(x, nu, m, 1);
        lemma_two_sided(y, du, m, 1);
        lemma_two_sided(z * y, xu, m, 1);
        lemma_three_roundings(n as int, d as int, x, y, z, u as int, m);
        lemma_one_bound(z * d, nu, m, 4);
    }
}

/// A distance as two bounds.
pub proof fn lemma_two_sided(x: int, y: int, m: int, k: int)
    requires
        m > 0,
        apart(x, y) * m <= k * y,
    ensures
        y * (m - k) <= x * m <= y * (m + k),
{
    assert(y * (m - k) == y * m - k * y && y * (m + k) == y * m + k * y) by (nonlinear_arith);
    if x < y {
        assert((y - x) * m == y * m - x * m) by (nonlinear_arith);
        assert(x * m <= y * m) by (nonlinear_arith)
            requires
                x < y,
                m > 0,
        ;
    } else {
        assert((x - y) * m == x * m - y * m) by (nonlinear_arith);
        assert(x * m >= y * m) by (nonlinear_arith)
            requires
                x >= y,
                m > 0,
        ;
    }
}

/// Two bounds as a distance.
pub proof fn lemma_one_bound(x: int, y: int, m: int, k: int)
    requires
        y * (m - k) <= x * m <= y * (m + k),
    ensures
        apart(x, y) * m <= k * y,
{
    assert(y * (m - k) == y * m - k * y && y * (m + k) == y * m + k * y) by (nonlinear_arith);
    assert((y - x) * m == y * m - x * m) by (nonlinear_arith);
    assert((x - y) * m == x * m - y * m) by (nonlinear_arith);
}

/// The quotient of two integers as a percentage is off by at most six parts in
/// `2^53`.
pub proof fn lemma_percentage_near(n: u64, d: u64)
    requires
        d > 0,
    ensures
        near(
            double::product(
                double::quotient(double::of_quotient(n as nat, 1), double::of_quotient(d as nat, 1)),
                double::of_quotient(100, 1),
            ),
            100 * n,
            d as int,
            6,
        ),
{
    let q = double::quotient(double::of_quotient(n as nat, 1), double::of_quotient(d as nat, 1));
    let h = double::of_quotient(100, 1);
    let p = double::product(q, h);
    let u = one();
    lemma_integers_divide_near(n, d);
    lemma_scale();
    double::lemma_small_integer(100);
    double::lemma_on_grid(0);
    let m: int = 0x20_0000_0000_0000;
    let r = q.units();
    lemma_two_sided(r * d, n * u, m, 4);
    if n == 0 {
        assert(0 * u == 0) by (nonlinear_arith);
        assert(r == 0) by (nonlinear_arith)
            requires
                r * d * m <= 0,
                r >= 0,
                d > 0,
                m > 0,
        ;
        if q.position() > 0 {
            double::lemma_on_grid(q.position());
        }
        assert(0 * double::magnitude(h.units()) == 0) by (nonlinear_arith);
        double::lemma_nearest_zero(u);
        assert(p.position() == 0);
        assert(0 * (d as int) == 0) by (nonlinear_arith);
    } else {
        let g = power2::pow2(200);
        let big = power2::pow2(2000);
        let hu = 100 * u;
        assert(r * d * 2 >= n * u && r * d <= 2 * (n * u)) by (nonlinear_arith)
            requires
                n * u * (m - 4) <= r * d * m <= n * u * (m + 4),
                m == 0x20_0000_0000_0000,
                n * u >= 0,
        ;
        assert(u * power2::pow2(52) <= r * hu <= u * big) by (nonlinear_arith)
            requires
                r * d * 2 >= n * u,
                r * d <= 2 * (n * u),
                hu == 100 * u,
                r >= 0,
                1 <= n <= 0xffff_ffff_ffff_ffff,
                1 <= d <= 0xffff_ffff_ffff_ffff,
                u >= g,
                g >= 0x1_0000_0000_0000_0000 * 0x1_0000_0000_0000_0000 * 0x1_0000_0000_0000_0000,
                power2::pow2(52) == 0x10_0000_0000_0000,
                big >= u * g,
        ;
        lemma_product_near(q, h);
        let z = p.units();
        lemma_two_sided(z * u, r * hu, m, 1);
        assert(100 * r * (m - 1) <= z * m <= 100 * r * (m + 1)) by (nonlinear_arith)
            requires
                r * hu * (m - 1) <= z * u * m <= r * hu * (m + 1),
                hu == 100 * u,
                u > 0,
        ;
        let nu = n * u;
        assert(100 * nu * (m - 6) <= z * d * m <= 100 * nu * (m + 6)) by {
            assert(100 * (r * d) * (m - 1) <= z * d * m <= 100 * (r * d) * (m + 1))
                by (nonlinear_arith)
                requires
                    100 * r * (m - 1) <= z * m <= 100 * r * (m + 1),
                    d > 0,
            ;
            let x = r * d;
            assert(100 * nu * (m - 6) * m <= 100 * (x * m) * (m - 1)) by (nonlinear_arith)
                requires
                    nu * (m - 4) <= x * m,
                    m == 0x20_0000_0000_0000,
                    nu >= 0,
            ;
            assert(100 * (x * m) * (m + 1) <= 100 * nu * (m + 6) * m) by (nonlinear_arith)
                requires
                    x * m <= nu * (m + 4),
                    m == 0x20_0000_0000_0000,
                    nu >= 0,
            ;
            assert(100 * nu * (m - 6) * m <= z * d * m * m) by (nonlinear_arith)
                requires
                    100 * nu * (m - 6) * m <= 100 * (x * m) * (m - 1),
                    100 * x * (m - 1) <= z * d * m,
                    m > 0,
            ;
            assert(z * d * m * m <= 100 * nu * (m + 6) * m) by (nonlinear_arith)
                requires
                    100 * (x * m) * (m + 1) <= 100 * nu * (m + 6) * m,
                    100 * x * (m + 1) >= z * d * m,
                    m > 0,
            ;
            let w = z * d * m;
            assert(100 * nu * (m - 6) <= w <= 100 * nu * (m + 6)) by (nonlinear_arith)
                requires
                    100 * nu * (m - 6) * m <= w * m <= 100 * nu * (m + 6) * m,
                    m > 0,
            ;
        }
        assert(100 * nu == 100 * n * u) by (nonlinear_arith)
            requires
                nu == n * u,
        ;
        lemma_one_bound(z * d, 100 * nu, m, 6);
    }
}

/// A quotient of integers below `2^64` that was rounded once is off by at most
/// one part in `2^53`.
pub proof fn lemma_fraction_near(n: u64, d: u64)
    requires
        n > 0,
        d > 0,
    ensures
        near(double::of_quotient(n as nat, d as nat), n as int, d as int, 1),
        !double::of_quotient(n as nat, d as nat).negative(),
{
    let u = one();
    lemma_scale();
    let nu = n as nat * u;
    let g = power2::pow2(200);
    let big = power2::pow2(2000);
    assert(d * power2::pow2(52) <= nu <= d * big) by (nonlinear_arith)
        requires
            nu == n * u,
            1 <= n <= 0xffff_ffff_ffff_ffff,
            1 <= d <= 0xffff_ffff_ffff_ffff,
            u >= g,
            g >= 0x1_0000_0000_0000_0000 * 0x1_0000_0000_0000_0000 * 0x1_0000_0000_0000_0000,
            power2::pow2(52) == 0x10_0000_0000_0000,
            big >= u * g,
    ;
    lemma_rounded(nu, d as nat);
    lemma_signed(false, double::nearest(nu, d as nat));
}

/// A quotient that a signed integer is divided into is near the exact one.
pub proof fn lemma_signed_divides_near(n: i64, d: u64)
    requires
        d > 0,
    ensures
        near(
            double::quotient(double::of_integer(n as int), double::of_quotient(d as nat, 1)),
            n as int,
            d as int,
            4,
        ),
{
    let m = double::magnitude(n as int);
    let b = double::of_quotient(d as nat, 1);
    let (x, y) = (double::of_integer(n as int), double::of_quotient(m, 1));
    lemma_integers_divide_near(m as u64, d);
    lemma_integer_near(m as u64);
    lemma_integer_near(d);
    assert(x.position() == y.position());
    let (r, t) = (double::quotient(x, b), double::quotient(y, b));
    assert(r.position() == t.position());
    if n < 0 {
        assert(r.units() == -t.units());
        assert((-t.units()) * d == -(t.units() * d)) by (nonlinear_arith);
        assert((-m) * one() == -(m * one())) by (nonlinear_arith);
    } else {
        assert(r == t);
    }
}

/// What a count comes to over a stretch of time, times that stretch, is the count
/// up to four parts in `2^53`.
pub proof fn lemma_rate_near(count: u64, s: Double)
    requires
        s.is_finite(),
        one() <= s.units() * 0x4000_0000,
        s.units() <= 0x1_0000_0000_0000_0000 * one(),
    ensures
        ({
            let r = double::quotient(double::of_quotient(count as nat, 1), s);
            &&& r.is_finite()
            &&& apart(r.units() * s.units(), count * one() * one()) * 0x20_0000_0000_0000 <= 4 * (
            count * one() * one())
        }),
{
    let a = double::of_quotient(count as nat, 1);
    let r = double::quotient(a, s);
    let u = one();
    let (x, y) = (a.units(), s.units());
    lemma_integer_near(count);
    lemma_scale();
    assert(x * 1 == x) by (nonlinear_arith);
    double::lemma_on_grid(0);
    assert(y > 0) by (nonlinear_arith)
        requires
            u <= y * 0x4000_0000,
            u > 0,
    ;
    double::lemma_on_grid(s.position());
    if count == 0 {
        double::lemma_small_integer(0);
        assert(0 * u == 0) by (nonlinear_arith);
        double::lemma_nearest_zero(y as nat);
        assert(r.position() == 0);
        assert(0 * y == 0 && 0 * u * u == 0) by (nonlinear_arith);
    } else {
        let g = power2::pow2(200);
        let big = power2::pow2(2000);
        assert(y * power2::pow2(52) <= x * u <= y * big) by (nonlinear_arith)
            requires
                2 * x >= count * u,
                x <= 2 * (count * u),
                u <= y * 0x4000_0000,
                y <= 0x1_0000_0000_0000_0000 * u,
                1 <= count <= 0xffff_ffff_ffff_ffff,
                u >= g,
                g >= 0x1_0000_0000_0000_0000 * 0x1_0000_0000_0000_0000 * 0x1_0000_0000_0000_0000,
                power2::pow2(52) == 0x10_0000_0000_0000,
                big >= u * g,
        ;
        lemma_quotient_near(a, s);
        let m: int = 0x20_0000_0000_0000;
        let z = r.units();
        let cu = count * u;
        lemma_two_sided(x, cu, m, 1);
        lemma_two_sided(z * y, x * u, m, 1);
        let w = z * y;
        let c = cu * u;
        assert(c == count * u * u);
        assert(c * (m - 1) <= x * u * m <= c * (m + 1)) by (nonlinear_arith)
            requires
                c == cu * u,
                cu * (m - 1) <= x * m <= cu * (m + 1),
                u > 0,
        ;
        let v = x * u;
        assert(c >= 0) by (nonlinear_arith)
            requires
                c == cu * u,
                cu == count * u,
                count >= 0,
                u > 0,
        ;
        assert(w * m * m <= c * (m + 4) * m) by (nonlinear_arith)
            requires
                w * m <= v * (m + 1),
                v * m <= c * (m + 1),
                m == 0x20_0000_0000_0000,
                c >= 0,
        ;
        assert(w * m * m >= c * (m - 4) * m) by (nonlinear_arith)
            requires
                w * m >= v * (m - 1),
                v * m >= c * (m - 1),
                m == 0x20_0000_0000_0000,
                c >= 0,
        ;
        let t = w * m;
        assert(c * (m - 4) <= t <= c * (m + 4)) by (nonlinear_arith)
            requires
                t * m <= c * (m + 4) * m,
                t * m >= c * (m - 4) * m,
                m > 0,
        ;
        lemma_one_bound(w, c, m, 4);
    }
}

/// `x` is exactly `k / 2^j`.
#[verifier::opaque]
pub open spec fn exactly(x: Double, k: int, j: nat) -> bool {
    x.is_finite() && x.units() * power2::pow2(j) == k * one()
}

/// Integers below `2^53` times a power of two are numbers.
proof fn lemma_on_the_grid(v: nat, e: nat, d: nat)
    requires
        v < 0x20_0000_0000_0000,
        e <= 1900,
        d > 0,
    ensures
        double::nearest(v * power2::pow2(e) * d, d) < double::INFINITY,
        grid::number_at(double::nearest(v * power2::pow2(e) * d, d), 52) == v * power2::pow2(e),
{
    lemma_scale();
    let (q, f) = double::lemma_normal_form(v, e);
    let w = power2::pow2(f);
    assert(v * power2::pow2(e) * d == q * (d * w)) by (nonlinear_arith)
        requires
            q * w == v * power2::pow2(e),
    ;
    assert(f * power2::pow2(52) + q < double::INFINITY) by (nonlinear_arith)
        requires
            f <= 1900,
            q < 0x20_0000_0000_0000,
            power2::pow2(52) == 0x10_0000_0000_0000,
    ;
    rounding::lemma_nearest_exact(
        v * power2::pow2(e) * d,
        d,
        q,
        f,
        52,
        double::INFINITY as nat,
    );
    grid::lemma_number_at_parts(q, f, 52);
}

/// What is exactly a fraction, in units.
proof fn lemma_fraction(x: Double, k: int, j: nat)
    requires
        exactly(x, k, j),
        j <= 1074,
    ensures
        x.is_finite(),
        x.units() == k * power2::pow2((1074 - j) as nat),
        double::magnitude(x.units()) == double::magnitude(k) * power2::pow2((1074 - j) as nat),
        k > 0 ==> !x.negative() && x.position() > 0,
        k < 0 ==> x.negative() && x.position() > 0,
        k == 0 ==> x.position() == 0,
{
    reveal(exactly);
    let (a, b) = (power2::pow2(j), power2::pow2((1074 - j) as nat));
    power2::lemma_pow2_adds(j, (1074 - j) as nat);
    power2::lemma_pow2_pos(j);
    power2::lemma_pow2_pos((1074 - j) as nat);
    let v = x.units();
    assert(v == k * b) by (nonlinear_arith)
        requires
            v * a == k * (a * b),
            a > 0,
    ;
    assert(k > 0 ==> k * b > 0) by (nonlinear_arith)
        requires
            b > 0,
    ;
    assert(k < 0 ==> k * b < 0 && (-k) * b == -(k * b)) by (nonlinear_arith)
        requires
            b > 0,
    ;
    assert(k == 0 ==> k * b == 0) by (nonlinear_arith);
    double::lemma_on_grid(0);
    double::lemma_on_grid(x.position());
}

/// A number that was built from the units of a fraction is that fraction.
proof fn lemma_is_fraction(x: Double, k: int, j: nat)
    requires
        x.is_finite(),
        j <= 1074,
        x.units() == k * power2::pow2((1074 - j) as nat),
    ensures
        exactly(x, k, j),
{
    reveal(exactly);
    let (a, b) = (power2::pow2(j), power2::pow2((1074 - j) as nat));
    power2::lemma_pow2_adds(j, (1074 - j) as nat);
    assert((k * b) * a == k * (a * b)) by (nonlinear_arith);
}

/// Integers below `2^53` are exact.
pub proof fn lemma_exact_integer(v: nat)
    requires
        v < 0x20_0000_0000_0000,
    ensures
        exactly(double::of_quotient(v, 1), v as int, 0),
{
    double::lemma_small_integer(v);
    lemma_is_fraction(double::of_quotient(v, 1), v as int, 0);
}

/// Zero of either sign is exact.
pub proof fn lemma_exact_zero(x: Double, j: nat)
    requires
        x.position() == 0,
        j <= 1074,
    ensures
        exactly(x, 0, j),
{
    double::lemma_on_grid(0);
    assert(0 * power2::pow2((1074 - j) as nat) == 0) by (nonlinear_arith);
    lemma_is_fraction(x, 0, j);
}

/// A finer fraction of the same value.
pub proof fn lemma_exact_refined(x: Double, k: int, j: nat, i: nat)
    requires
        exactly(x, k, j),
        i + j <= 1074,
    ensures
        exactly(x, k * power2::pow2(i), i + j),
{
    reveal(exactly);
    power2::lemma_pow2_adds(i, j);
    let (a, b) = (power2::pow2(i), power2::pow2(j));
    let v = x.units();
    assert(v * (a * b) == (k * a) * one()) by (nonlinear_arith)
        requires
            v * b == k * one(),
    ;
}

/// The opposite of an exact number is exact.
pub proof fn lemma_exact_opposite(x: Double, k: int, j: nat)
    requires
        exactly(x, k, j),
        j <= 1074,
    ensures
        exactly(double::opposite(x), -k, j),
{
    lemma_fraction(x, k, j);
    let b = power2::pow2((1074 - j) as nat);
    assert((-k) * b == -(k * b)) by (nonlinear_arith);
    lemma_is_fraction(double::opposite(x), -k, j);
}

/// A sum of exact numbers is exact while it stays below `2^53` steps.
pub proof fn lemma_exact_sum(a: Double, b: Double, k: int, m: int, j: nat)
    requires
        exactly(a, k, j),
        exactly(b, m, j),
        j <= 1074,
        -0x20_0000_0000_0000 < k + m < 0x20_0000_0000_0000,
    ensures
        exactly(double::sum(a, b), k + m, j),
{
    let w = power2::pow2((1074 - j) as nat);
    lemma_fraction(a, k, j);
    lemma_fraction(b, m, j);
    power2::lemma_pow2_pos((1074 - j) as nat);
    let v = a.units() + b.units();
    let t = double::magnitude(k + m);
    assert(v == (k + m) * w) by (nonlinear_arith)
        requires
            v == k * w + m * w,
    ;
    assert(k + m == 0 ==> v == 0) by (nonlinear_arith)
        requires
            v == (k + m) * w,
    ;
    assert(k + m > 0 ==> v > 0) by (nonlinear_arith)
        requires
            v == (k + m) * w,
            w > 0,
    ;
    assert(k + m < 0 ==> v < 0 && (-(k + m)) * w == -v) by (nonlinear_arith)
        requires
            v == (k + m) * w,
            w > 0,
    ;
    let r = double::sum(a, b);
    if v == 0 {
        assert(r.position() == 0);
        lemma_exact_zero(r, j);
    } else {
        lemma_on_the_grid(t, (1074 - j) as nat, 1);
        assert(t * w * 1 == double::magnitude(v)) by (nonlinear_arith)
            requires
                t * w == double::magnitude(v),
        ;
        lemma_signed(v < 0, double::nearest(double::magnitude(v), 1));
        lemma_is_fraction(r, k + m, j);
    }
}

/// A product of exact numbers is exact while it stays below `2^53` steps.
pub proof fn lemma_exact_product(a: Double, b: Double, k: int, m: int, i: nat, j: nat)
    requires
        exactly(a, k, i),
        exactly(b, m, j),
        i + j <= 1074,
        -0x20_0000_0000_0000 < k * m < 0x20_0000_0000_0000,
    ensures
        exactly(double::product(a, b), k * m, i + j),
{
    lemma_fraction(a, k, i);
    lemma_fraction(b, m, j);
    let (p, q) = (power2::pow2((1074 - i) as nat), power2::pow2((1074 - j) as nat));
    let w = power2::pow2((1074 - i - j) as nat);
    power2::lemma_pow2_adds((1074 - i) as nat, (1074 - j) as nat);
    power2::lemma_pow2_adds((1074 - i - j) as nat, 1074);
    assert(p * q == w * one());
    let (x, y) = (double::magnitude(a.units()), double::magnitude(b.units()));
    let t = double::magnitude(k * m);
    let (tk, tm) = (double::magnitude(k), double::magnitude(m));
    assert(t == tk * tm) by (nonlinear_arith)
        requires
            t == double::magnitude(k * m),
            tk == double::magnitude(k),
            tm == double::magnitude(m),
    ;
    assert(x * y == t * w * one()) by (nonlinear_arith)
        requires
            x == tk * p,
            y == tm * q,
            t == tk * tm,
            p * q == w * one(),
    ;
    power2::lemma_pow2_pos(1074);
    lemma_on_the_grid(t, (1074 - i - j) as nat, one());
    let r = double::product(a, b);
    let negative = a.negative() != b.negative();
    let pos = double::nearest(x * y, one());
    lemma_signed(negative, pos);
    if k * m == 0 {
        assert(t * w == 0) by (nonlinear_arith)
            requires
                t == 0,
        ;
        if pos > 0 {
            double::lemma_on_grid(pos);
        }
        lemma_exact_zero(r, i + j);
    } else {
        assert(k != 0 && m != 0) by (nonlinear_arith)
            requires
                k * m != 0,
        ;
        assert(k * m < 0 <==> (k < 0) != (m < 0)) by (nonlinear_arith)
            requires
                k != 0,
                m != 0,
        ;
        assert(k * m < 0 ==> (-(k * m)) * w == -((k * m) * w)) by (nonlinear_arith);
        lemma_is_fraction(r, k * m, i + j);
    }
}

/// The quotient of an integer by another that is a multiple of an eighth is
/// exact.
pub proof fn lemma_exact_eighths(a: Double, n: nat, s: int, m: int)
    requires
        exactly(a, s, 0),
        0 < n < 0x20_0000_0000_0000,
        n * m == 8 * s,
        0 <= m < 0x20_0000_0000_0000,
    ensures
        exactly(double::quotient(a, double::of_quotient(n, 1)), m, 3),
{
    let b = double::of_quotient(n, 1);
    lemma_fraction(a, s, 0);
    double::lemma_small_integer(n);
    power2::lemma_pow2_pos(1074);
    power2::lemma2_to64();
    power2::lemma_pow2_adds(3, 1071);
    let w = power2::pow2(1071);
    let u = one();
    assert(s >= 0) by (nonlinear_arith)
        requires
            n * m == 8 * s,
            n > 0,
            m >= 0,
    ;
    let x = double::magnitude(a.units());
    let y = double::magnitude(b.units());
    assert(x == s * u && y == n * u);
    assert(x * u == (m as nat) * w * y) by (nonlinear_arith)
        requires
            x == s * u,
            y == n * u,
            n * m == 8 * s,
            u == 8 * w,
            m >= 0,
    ;
    assert(y > 0) by (nonlinear_arith)
        requires
            y == n * u,
            n > 0,
            u > 0,
    ;
    lemma_on_the_grid(m as nat, 1071, y);
    let r = double::quotient(a, b);
    let pos = double::nearest(x * u, y);
    lemma_signed(a.negative() != b.negative(), pos);
    if m == 0 {
        assert((m as nat) * w == 0) by (nonlinear_arith)
            requires
                m == 0,
        ;
        if pos > 0 {
            double::lemma_on_grid(pos);
        }
        lemma_exact_zero(r, 3);
    } else {
        assert(s > 0) by (nonlinear_arith)
            requires
                n * m == 8 * s,
                n > 0,
                m > 0,
        ;
        lemma_is_fraction(r, m, 3);
    }
}

/// One more rounding on top of `k` parts comes to at most `k + 2`.
proof fn lemma_compose(x: int, y: int, z: int, k: int, m: int)
    requires
        y >= 0,
        0 <= k <= 8,
        m == 0x20_0000_0000_0000,
        y * (m - k) <= x * m <= y * (m + k),
        x * (m - 1) <= z * m <= x * (m + 1),
    ensures
        y * (m - k - 2) <= z * m <= y * (m + k + 2),
{
    assert(z * m * m <= y * (m + k + 2) * m) by (nonlinear_arith)
        requires
            z * m <= x * (m + 1),
            x * m <= y * (m + k),
            y >= 0,
            0 <= k <= 8,
            m == 0x20_0000_0000_0000,
    ;
    assert(z * m * m >= y * (m - k - 2) * m) by (nonlinear_arith)
        requires
            z * m >= x * (m - 1),
            x * m >= y * (m - k),
            y >= 0,
            0 <= k <= 8,
            m == 0x20_0000_0000_0000,
    ;
    let t = z * m;
    assert(y * (m - k - 2) <= t <= y * (m + k + 2)) by (nonlinear_arith)
        requires
            t * m <= y * (m + k + 2) * m,
            t * m >= y * (m - k - 2) * m,
            m > 0,
    ;
}

/// A quotient of two exact numbers, times an integer and over another, is off by
/// at most five parts in `2^53`.
pub proof fn lemma_scaled_quotient_near(num: Double, den: Double, n: int, d: int, j: nat)
    requires
        exactly(num, n, j),
        exactly(den, d, j),
        j <= 1000,
        0 < d < 0x20_0000_0000_0000,
        -0x20_0000_0000_0000 < n < 0x20_0000_0000_0000,
    ensures
        near(
            double::quotient(
                double::product(double::quotient(num, den), double::of_quotient(3600, 1)),
                double::of_quotient(1048576, 1),
            ),
            3600 * n,
            1048576 * d,
            5,
        ),
{
    let q = double::quotient(num, den);
    let c = double::of_quotient(3600, 1);
    let e = double::of_quotient(1048576, 1);
    let p = double::product(q, c);
    let r = double::quotient(p, e);
    let u = one() as int;
    let m: int = 0x20_0000_0000_0000;
    lemma_scale();
    lemma_fraction(num, n, j);
    lemma_fraction(den, d, j);
    double::lemma_small_integer(3600);
    double::lemma_small_integer(1048576);
    power2::lemma_pow2_pos((1074 - j) as nat);
    double::lemma_on_grid(0);
    let w = power2::pow2((1074 - j) as nat) as int;
    let t = double::magnitude(n) as int;
    let (tw, dw) = (double::magnitude(num.units()) as int, double::magnitude(den.units()) as int);
    assert(tw == t * w && dw == d * w);
    let (cu, eu) = (3600 * u, 1048576 * u);
    if n == 0 {
        double::lemma_on_grid(den.position());
        assert(0 * u == 0) by (nonlinear_arith);
        double::lemma_nearest_zero(dw as nat);
        assert(q.position() == 0);
        assert(0 * cu == 0) by (nonlinear_arith);
        double::lemma_nearest_zero(u as nat);
        assert(p.position() == 0);
        assert(eu > 0) by (nonlinear_arith)
            requires
                eu == 1048576 * u,
                u > 0,
        ;
        double::lemma_nearest_zero(eu as nat);
        assert(r.position() == 0);
        assert(0 * (1048576 * d) == 0) by (nonlinear_arith);
    } else {
        let g = power2::pow2(200) as int;
        let big = power2::pow2(2000) as int;
        assert(dw * power2::pow2(52) <= tw * u <= dw * big) by (nonlinear_arith)
            requires
                tw == t * w,
                dw == d * w,
                w > 0,
                1 <= t < 0x20_0000_0000_0000,
                1 <= d < 0x20_0000_0000_0000,
                u >= g,
                g >= 0x1_0000_0000_0000_0000 * 0x1_0000_0000_0000_0000 * 0x1_0000_0000_0000_0000,
                power2::pow2(52) == 0x10_0000_0000_0000,
                big >= u * g,
        ;
        lemma_quotient_near(num, den);
        let x = double::magnitude(q.units()) as int;
        lemma_two_sided(x * dw, tw * u, m, 1);
        let tu = t * u;
        let xd = x * d;
        assert(tu * (m - 1) <= xd * m <= tu * (m + 1)) by (nonlinear_arith)
            requires
                tw * u * (m - 1) <= x * dw * m <= tw * u * (m + 1),
                tw == t * w,
                dw == d * w,
                tu == t * u,
                xd == x * d,
                w > 0,
        ;
        assert(xd * 2 >= tu && xd <= 2 * tu) by (nonlinear_arith)
            requires
                tu * (m - 1) <= xd * m <= tu * (m + 1),
                tu >= 0,
                m == 0x20_0000_0000_0000,
        ;
        assert(u * power2::pow2(52) <= x * cu <= u * big && x * 0x40_0000_0000_0000 >= u && x
            <= 0x40_0000_0000_0000 * u) by (nonlinear_arith)
            requires
                xd * 2 >= tu,
                xd <= 2 * tu,
                xd == x * d,
                tu == t * u,
                cu == 3600 * u,
                x >= 0,
                1 <= t < 0x20_0000_0000_0000,
                1 <= d < 0x20_0000_0000_0000,
                u >= g,
                g >= 0x1_0000_0000_0000_0000 * 0x1_0000_0000_0000_0000 * 0x1_0000_0000_0000_0000,
                power2::pow2(52) == 0x10_0000_0000_0000,
                big >= u * g,
        ;
        lemma_product_near(q, c);
        let y = double::magnitude(p.units()) as int;
        lemma_two_sided(y * u, x * cu, m, 1);
        let x3 = 3600 * x;
        assert(x3 * (m - 1) <= y * m <= x3 * (m + 1)) by (nonlinear_arith)
            requires
                x * cu * (m - 1) <= y * u * m <= x * cu * (m + 1),
                cu == 3600 * u,
                x3 == 3600 * x,
                u > 0,
        ;
        assert(eu * power2::pow2(52) <= y * u <= eu * big) by (nonlinear_arith)
            requires
                x3 * (m - 1) <= y * m <= x3 * (m + 1),
                x3 == 3600 * x,
                m == 0x20_0000_0000_0000,
                x * 0x40_0000_0000_0000 >= u,
                x <= 0x40_0000_0000_0000 * u,
                eu == 1048576 * u,
                u >= g,
                g >= 0x1_0000_0000_0000_0000 * 0x1_0000_0000_0000_0000 * 0x1_0000_0000_0000_0000,
                power2::pow2(52) == 0x10_0000_0000_0000,
                big >= u * g,
        ;
        lemma_quotient_near(p, e);
        let z = double::magnitude(r.units()) as int;
        lemma_two_sided(z * eu, y * u, m, 1);
        let z2 = 1048576 * z;
        assert(y * (m - 1) <= z2 * m <= y * (m + 1)) by (nonlinear_arith)
            requires
                y * u * (m - 1) <= z * eu * m <= y * u * (m + 1),
                eu == 1048576 * u,
                z2 == 1048576 * z,
                u > 0,
        ;
        // Together, over the divisor.
        let (a, b, f) = (x3 * d, y * d, z2 * d);
        let goal = 3600 * tu;
        assert(goal * (m - 1) <= a * m <= goal * (m + 1)) by (nonlinear_arith)
            requires
                tu * (m - 1) <= xd * m <= tu * (m + 1),
                a == x3 * d,
                x3 == 3600 * x,
                xd == x * d,
                goal == 3600 * tu,
        ;
        assert(a * (m - 1) <= b * m <= a * (m + 1)) by (nonlinear_arith)
            requires
                x3 * (m - 1) <= y * m <= x3 * (m + 1),
                a == x3 * d,
                b == y * d,
                d > 0,
        ;
        assert(b * (m - 1) <= f * m <= b * (m + 1)) by (nonlinear_arith)
            requires
                y * (m - 1) <= z2 * m <= y * (m + 1),
                f == z2 * d,
                b == y * d,
                d > 0,
        ;
        lemma_compose(a, goal, b, 1, m);
        lemma_compose(b, goal, f, 3, m);
        lemma_one_bound(f, goal, m, 5);
        let dd = 1048576 * d;
        assert(z * dd == f && 3600 * t * u == goal) by (nonlinear_arith)
            requires
                dd == 1048576 * d,
                f == z2 * d,
                z2 == 1048576 * z,
                goal == 3600 * tu,
                tu == t * u,
        ;
        if n < 0 {
            assert(r.units() == -z);
            assert((-z) * dd == -(z * dd) && (3600 * n) * u == -(3600 * t * u)) by (nonlinear_arith)
                requires
                    n == -t,
            ;
        } else {
            assert(r.units() == z);
        }
    }
}

/// A fraction of at least a sixty-fourth is above the distance between one and
/// the next number.
pub proof fn lemma_above_epsilon(x: Double, k: int, j: nat, epsilon: Double)
    requires
        exactly(x, k, j),
        j <= 6,
        k > 0,
        epsilon.bits == 0x3cb0_0000_0000_0000,
    ensures
        !x.not_above(epsilon),
{
    lemma_fraction(x, k, j);
    lemma_scale();
    let w = power2::pow2((1074 - j) as nat);
    rounding::lemma_pow2_le(1068, (1074 - j) as nat);
    power2::lemma_pow2_adds(52, 970);
    rounding::lemma_pow2_le(1023, 1068);
    power2::lemma_pow2_unfold(1023);
    power2::lemma_pow2_pos(1022);
    let e = epsilon.position();
    assert(e == 971 * power2::pow2(52) + 0);
    grid::lemma_number_at_parts(power2::pow2(52), 970, 52);
    power2::lemma_pow2_unfold(53);
    assert(970 * power2::pow2(52) + power2::pow2(52) == e);
    assert(k * w >= w) by (nonlinear_arith)
        requires
            k >= 1,
            w >= 0,
    ;
    if x.position() < e {
        grid::lemma_number_at_increases(x.position(), e, 52);
    }
}

/// Rounding does not leave the bounds that numbers put around a quotient.
pub proof fn lemma_within(n: nat, d: nat, lo: nat, hi: nat, e: nat)
    requires
        d > 0,
        lo < 0x20_0000_0000_0000,
        hi < 0x20_0000_0000_0000,
        e <= 1900,
        lo * power2::pow2(e) * d <= n <= hi * power2::pow2(e) * d,
    ensures
        double::nearest(n, d) < double::INFINITY,
        lo * power2::pow2(e) <= grid::number_at(double::nearest(n, d), 52) <= hi * power2::pow2(e),
{
    let (a, b) = (lo * power2::pow2(e) * d, hi * power2::pow2(e) * d);
    lemma_on_the_grid(lo, e, d);
    lemma_on_the_grid(hi, e, d);
    assert(a * d <= n * d && n * d <= b * d) by (nonlinear_arith)
        requires
            a <= n <= b,
            d > 0,
    ;
    rounding::lemma_nearest_monotonic(a, d, n, d, 52, double::INFINITY as nat);
    rounding::lemma_nearest_monotonic(n, d, b, d, 52, double::INFINITY as nat);
    let (x, y, z) = (double::nearest(a, d), double::nearest(n, d), double::nearest(b, d));
    if x < y {
        grid::lemma_number_at_increases(x, y, 52);
    }
    if y < z {
        grid::lemma_number_at_increases(y, z, 52);
    }
}

/// The same with powers of two.
pub proof fn lemma_within_powers(n: nat, d: nat, a: nat, b: nat)
    requires
        d > 0,
        a <= 1900,
        b <= 1900,
        power2::pow2(a) * d <= n <= power2::pow2(b) * d,
    ensures
        double::nearest(n, d) < double::INFINITY,
        power2::pow2(a) <= grid::number_at(double::nearest(n, d), 52) <= power2::pow2(b),
{
    assert(1 * power2::pow2(a) == power2::pow2(a) && 1 * power2::pow2(b) == power2::pow2(b) && 0
        * power2::pow2(a) == 0) by (nonlinear_arith);
    assert(0 * d == 0) by (nonlinear_arith);
    // Each bound by itself.
    let hi = power2::pow2(b);
    assert(0 * hi == 0) by (nonlinear_arith);
    lemma_within(n, d, 0, 1, b);
    lemma_on_the_grid(1, a, d);
    let x = power2::pow2(a) * d;
    assert(x * d <= n * d) by (nonlinear_arith)
        requires
            x <= n,
            d > 0,
    ;
    rounding::lemma_nearest_monotonic(x, d, n, d, 52, double::INFINITY as nat);
    let (p, q) = (double::nearest(x, d), double::nearest(n, d));
    if p < q {
        grid::lemma_number_at_increases(p, q, 52);
    }
}

/// The mean of whole numbers lies between those below and those above it, and an
/// eighth away from those that it is not, as long as there are at most eight.
pub open spec fn parts(mean: Double, n: int, s: int, v: int) -> bool {
    &&& mean.is_finite()
    &&& 0 <= mean.units() <= 0x20_0000_0000_0000 * one()
    &&& n * v <= s ==> v * one() <= mean.units()
    &&& n * v >= s ==> v * one() >= mean.units()
    &&& n * v < s ==> (8 * v + 1) * one() <= 8 * mean.units()
    &&& n * v > s ==> (8 * v - 1) * one() >= 8 * mean.units()
}

pub proof fn lemma_mean_parts(sum: Double, n: nat, s: int, v: int)
    requires
        exactly(sum, s, 0),
        0 < n <= 8,
        0 <= s < 0x20_0000_0000_0000,
        0 <= v < 0x4_0000_0000_0000,
    ensures
        parts(double::quotient(sum, double::of_quotient(n, 1)), n as int, s, v),
{
    let b = double::of_quotient(n, 1);
    let mean = double::quotient(sum, b);
    lemma_fraction(sum, s, 0);
    double::lemma_small_integer(n);
    power2::lemma_pow2_pos(1074);
    power2::lemma_pow2_pos(1071);
    power2::lemma2_to64();
    power2::lemma_pow2_adds(3, 1071);
    let u = one() as int;
    let w = power2::pow2(1071) as int;
    let x = double::magnitude(sum.units()) as int;
    let y = double::magnitude(b.units()) as int;
    assert(x == s * u && y == n * u && u == 8 * w);
    let k = (x * u) as nat;
    assert(k == s * u * u && y > 0) by (nonlinear_arith)
        requires
            k == x * u,
            x == s * u,
            y == n * u,
            n > 0,
            u > 0,
    ;
    let top: int = 0x1f_ffff_ffff_ffff;
    assert(0 * u * y <= k <= top * u * y) by (nonlinear_arith)
        requires
            k == s * u * u,
            y == n * u,
            n >= 1,
            u > 0,
            0 <= s <= top,
    ;
    lemma_within(k, y as nat, 0, top as nat, 1074);
    lemma_signed(sum.negative() != b.negative(), double::nearest(k, y as nat));
    let pos = double::nearest(k, y as nat);
    if s == 0 {
        assert(k == 0) by (nonlinear_arith)
            requires
                k == s * u * u,
                s == 0,
        ;
        double::lemma_nearest_zero(y as nat);
        double::lemma_on_grid(0);
    }
    let z = mean.units();
    assert(z == grid::number_at(pos, 52));
    assert(0 * u == 0) by (nonlinear_arith);
    // Below the mean, and not below it.
    let hi: int = 0x1f_ffff_ffff_ffff;
    if n * v <= s {
        let lo = 8 * v + (if n * v < s {
            1int
        } else {
            0
        });
        assert(lo * n <= 8 * s) by (nonlinear_arith)
            requires
                n * v <= s,
                lo == 8 * v + (if n * v < s {
                    1int
                } else {
                    0
                }),
                n <= 8,
        ;
        assert(lo * w * y <= k) by (nonlinear_arith)
            requires
                lo * n <= 8 * s,
                y == n * u,
                u == 8 * w,
                k == s * u * u,
                w > 0,
        ;
        lemma_not_less(k, y as nat, lo as nat, 1071);
        assert(lo * u <= 8 * z) by (nonlinear_arith)
            requires
                lo * w <= z,
                u == 8 * w,
        ;
        assert((8 * v) * u <= lo * u && (8 * v) * u == 8 * (v * u)) by (nonlinear_arith)
            requires
                8 * v <= lo,
                u > 0,
        ;
    }
    if n * v >= s {
        let up = 8 * v - (if n * v > s {
            1int
        } else {
            0
        });
        assert(up * n >= 8 * s) by (nonlinear_arith)
            requires
                n * v >= s,
                up == 8 * v - (if n * v > s {
                    1int
                } else {
                    0
                }),
                n <= 8,
        ;
        assert(up >= 0) by (nonlinear_arith)
            requires
                up * n >= 8 * s,
                s >= 0,
                n > 0,
        ;
        assert(up * w * y >= k) by (nonlinear_arith)
            requires
                up * n >= 8 * s,
                y == n * u,
                u == 8 * w,
                k == s * u * u,
                w > 0,
        ;
        assert(0 * w * y == 0) by (nonlinear_arith);
        lemma_within(k, y as nat, 0, up as nat, 1071);
        assert(up * u >= 8 * z) by (nonlinear_arith)
            requires
                up * w >= z,
                u == 8 * w,
        ;
        assert((8 * v) * u >= up * u && (8 * v) * u == 8 * (v * u)) by (nonlinear_arith)
            requires
                8 * v >= up,
                u > 0,
        ;
    }
}

/// Rounding does not fall below a number that a quotient is not below.
proof fn lemma_not_less(n: nat, d: nat, lo: nat, e: nat)
    requires
        d > 0,
        lo < 0x20_0000_0000_0000,
        e <= 1900,
        lo * power2::pow2(e) * d <= n,
    ensures
        lo * power2::pow2(e) <= grid::number_at(double::nearest(n, d), 52),
{
    let a = lo * power2::pow2(e) * d;
    lemma_on_the_grid(lo, e, d);
    assert(a * d <= n * d) by (nonlinear_arith)
        requires
            a <= n,
            d > 0,
    ;
    rounding::lemma_nearest_monotonic(a, d, n, d, 52, double::INFINITY as nat);
    let (x, y) = (double::nearest(a, d), double::nearest(n, d));
    if x < y {
        grid::lemma_number_at_increases(x, y, 52);
    }
}

/// `x` leans to one side, by at least `least` and at most `2^most` units.
pub open spec fn leans(x: Double, up: bool, least: nat, most: nat) -> bool {
    &&& x.is_finite()
    &&& double::magnitude(x.units()) <= power2::pow2(most)
    &&& up ==> x.units() >= least
    &&& !up ==> x.units() <= -(least as int)
}

/// A whole number leans away from the mean to its own side, by an eighth at
/// least where it is not the mean itself.
pub proof fn lemma_step_leans(x: Double, mean: Double, n: int, s: int, v: int)
    requires
        exactly(x, v, 0),
        parts(mean, n, s, v),
        0 <= v < 0x4_0000_0000_0000,
    ensures
        ({
            let d = double::sum(x, double::opposite(mean));
            &&& n * v <= s ==> leans(d, false, 0, 1128)
            &&& n * v >= s ==> leans(d, true, 0, 1128)
            &&& n * v < s ==> leans(d, false, power2::pow2(1071), 1128)
            &&& n * v > s ==> leans(d, true, power2::pow2(1071), 1128)
        }),
{
    let d = double::sum(x, double::opposite(mean));
    lemma_fraction(x, v, 0);
    power2::lemma_pow2_pos(1071);
    power2::lemma2_to64();
    power2::lemma2_to64_rest();
    power2::lemma_pow2_adds(3, 1071);
    power2::lemma_pow2_adds(54, 1074);
    power2::lemma_pow2_pos(1128);
    double::lemma_on_grid(0);
    let u = one() as int;
    let w = power2::pow2(1071) as int;
    let k = x.units() - mean.units();
    assert(double::opposite(mean).units() == -mean.units());
    assert(x.units() == v * u);
    let m = double::magnitude(k);
    assert(m <= 0x40_0000_0000_0000 * u) by (nonlinear_arith)
        requires
            m == double::magnitude(k),
            k == v * u - mean.units(),
            0 <= v < 0x4_0000_0000_0000,
            0 <= mean.units() <= 0x20_0000_0000_0000 * u,
            u > 0,
    ;
    if k == 0 {
        assert(d.position() == 0);
        assert(n * v == s) by {
            if n * v < s {
                assert((8 * v + 1) * u == 8 * (v * u) + u) by (nonlinear_arith);
            }
            if n * v > s {
                assert((8 * v - 1) * u == 8 * (v * u) - u) by (nonlinear_arith);
            }
        }
    } else {
        assert(m * 1 == m && power2::pow2(1128) * 1 == power2::pow2(1128)) by (nonlinear_arith);
        power2::lemma_pow2_pos(0);
        assert(power2::pow2(0) * 1 <= m) by {
            power2::lemma2_to64();
        }
        lemma_within_powers(m, 1, 0, 1128);
        lemma_signed(k < 0, double::nearest(m, 1));
        if n * v != s {
            assert(m >= w) by {
                assert((8 * v + 1) * u == 8 * (v * u) + u && (8 * v - 1) * u == 8 * (v * u) - u)
                    by (nonlinear_arith);
            }
            assert(power2::pow2(1071) * 1 == power2::pow2(1071)) by (nonlinear_arith);
            lemma_within_powers(m, 1, 1071, 1128);
        }
    }
}

/// A product leans up where both leaned to the same side, and down otherwise.
pub proof fn lemma_product_leans(a: Double, b: Double, p: bool, q: bool, strict: bool)
    requires
        leans(a, p, 0, 1128),
        leans(b, q, 0, 1128),
        strict ==> leans(a, p, power2::pow2(1071), 1128) && leans(b, q, power2::pow2(1071), 1128),
    ensures
        leans(double::product(a, b), p == q, 0, 1182),
        strict ==> leans(double::product(a, b), p == q, power2::pow2(1068), 1182),
{
    let (x, y) = (double::magnitude(a.units()), double::magnitude(b.units()));
    let u = one();
    let r = double::product(a, b);
    power2::lemma_pow2_pos(1074);
    power2::lemma_pow2_adds(1128, 1128);
    power2::lemma_pow2_adds(1182, 1074);
    power2::lemma_pow2_adds(1071, 1071);
    power2::lemma_pow2_adds(1068, 1074);
    power2::lemma_pow2_pos(1071);
    let (h, l) = (power2::pow2(1128), power2::pow2(1071));
    let n = x * y;
    assert(n <= h * h && (strict ==> n >= l * l)) by (nonlinear_arith)
        requires
            n == x * y,
            0 <= x <= h,
            0 <= y <= h,
            strict ==> x >= l && y >= l,
            l > 0,
    ;
    double::lemma_on_grid(0);
    let pos = double::nearest(n, u);
    assert(0 * power2::pow2(1182) == 0 && 1 * power2::pow2(1182) == power2::pow2(1182) && 0 * u
        == 0) by (nonlinear_arith);
    lemma_within(n, u, 0, 1, 1182);
    lemma_signed(a.negative() != b.negative(), pos);
    if strict {
        lemma_within_powers(n, u, 1068, 1182);
    }
    if x == 0 || y == 0 {
        assert(n == 0) by (nonlinear_arith)
            requires
                n == x * y,
                x == 0 || y == 0,
        ;
        double::lemma_nearest_zero(u);
        assert(r.position() == 0);
        power2::lemma_pow2_pos(1182);
        power2::lemma_pow2_pos(1068);
    } else {
        double::lemma_on_grid(a.position());
        double::lemma_on_grid(b.position());
    }
}

/// A sum of what leans to one side leans there too.
pub proof fn lemma_sum_leans(a: Double, b: Double, up: bool, least: nat, j: nat)
    requires
        leans(a, up, 0, j),
        leans(b, up, 0, j),
        least == 0 || least == power2::pow2(1068),
        leans(a, up, least, j) || leans(b, up, least, j),
        1100 <= j <= 1800,
    ensures
        leans(double::sum(a, b), up, least, j + 1),
{
    let r = double::sum(a, b);
    let v = a.units() + b.units();
    let m = double::magnitude(v);
    power2::lemma_pow2_unfold(j + 1);
    power2::lemma_pow2_pos(j + 1);
    power2::lemma_pow2_pos(1068);
    double::lemma_on_grid(0);
    if v == 0 {
        assert(r.position() == 0);
    } else {
        let hi = power2::pow2(j + 1);
        assert(m * 1 == m && 0 * hi == 0 && 1 * hi == hi && hi * 1 == hi) by (nonlinear_arith);
        lemma_within(m, 1, 0, 1, j + 1);
        lemma_signed(v < 0, double::nearest(m, 1));
        if least > 0 {
            assert(least * 1 == least) by (nonlinear_arith);
            lemma_within_powers(m, 1, 1068, j + 1);
        }
    }
}

/// A quotient of what leans, times an integer and over another, leans to the side
/// that the dividend leaned to.
pub proof fn lemma_scaled_quotient_leans(num: Double, den: Double, up: bool)
    requires
        leans(num, up, power2::pow2(1068), 1200),
        leans(den, true, power2::pow2(1068), 1200),
    ensures
        ({
            let r = double::quotient(
                double::product(double::quotient(num, den), double::of_quotient(3600, 1)),
                double::of_quotient(1048576, 1),
            );
            &&& r.is_finite()
            &&& up ==> r.units() > 0
            &&& !up ==> r.units() < 0
        }),
{
    let q = double::quotient(num, den);
    let c = double::of_quotient(3600, 1);
    let e = double::of_quotient(1048576, 1);
    let p = double::product(q, c);
    let r = double::quotient(p, e);
    let u = one();
    double::lemma_small_integer(3600);
    double::lemma_small_integer(1048576);
    power2::lemma_pow2_pos(1068);
    power2::lemma_pow2_pos(1074);
    power2::lemma_pow2_pos(942);
    power2::lemma_pow2_pos(1206);
    double::lemma_on_grid(0);
    let (x, y) = (double::magnitude(num.units()), double::magnitude(den.units()));
    let (lo, hi) = (power2::pow2(1068), power2::pow2(1200));
    // The quotient.
    power2::lemma_pow2_adds(942, 1200);
    power2::lemma_pow2_adds(1068, 1074);
    power2::lemma_pow2_adds(1206, 1068);
    power2::lemma_pow2_adds(1200, 1074);
    let (a, b) = (power2::pow2(942), power2::pow2(1206));
    assert(a * y <= x * u <= b * y) by (nonlinear_arith)
        requires
            lo <= x <= hi,
            lo <= y <= hi,
            a * hi == lo * u,
            b * lo == hi * u,
            a > 0,
            b > 0,
            u > 0,
    ;
    lemma_within_powers(x * u, y, 942, 1206);
    lemma_signed(num.negative() != den.negative(), double::nearest(x * u, y));
    let z = double::magnitude(q.units());
    // Times an integer.
    power2::lemma_pow2_adds(1206, 12);
    power2::lemma2_to64();
    let cu = 3600 * u;
    let b2 = power2::pow2(1218);
    assert(a * u <= z * cu <= b2 * u) by (nonlinear_arith)
        requires
            a <= z <= b,
            cu == 3600 * u,
            b2 == b * 4096,
            a > 0,
            u > 0,
    ;
    lemma_within_powers(z * cu, u, 942, 1218);
    lemma_signed(q.negative() != c.negative(), double::nearest(z * cu, u));
    let t = double::magnitude(p.units());
    // Over another.
    power2::lemma_pow2_adds(922, 20);
    let eu = 1048576 * u;
    let a2 = power2::pow2(922);
    assert(a2 * eu <= t * u <= b2 * eu && eu > 0) by (nonlinear_arith)
        requires
            a <= t <= b2,
            eu == 1048576 * u,
            a == a2 * 1048576,
            u > 0,
    ;
    lemma_within_powers(t * u, eu, 922, 1218);
    lemma_signed(p.negative() != e.negative(), double::nearest(t * u, eu));
    power2::lemma_pow2_pos(922);
}

/// What leans up by a sixty-fourth is above the distance between one and the next
/// number.
pub proof fn lemma_lean_above_epsilon(x: Double, epsilon: Double, most: nat)
    requires
        leans(x, true, power2::pow2(1068), most),
        epsilon.bits == 0x3cb0_0000_0000_0000,
    ensures
        !x.not_above(epsilon),
{
    lemma_scale();
    power2::lemma_pow2_adds(52, 970);
    power2::lemma_pow2_unfold(1023);
    rounding::lemma_pow2_le(1023, 1068);
    power2::lemma_pow2_pos(1022);
    power2::lemma_pow2_unfold(53);
    let e = epsilon.position();
    grid::lemma_number_at_parts(power2::pow2(52), 970, 52);
    assert(970 * power2::pow2(52) + power2::pow2(52) == e);
    if x.position() < e {
        grid::lemma_number_at_increases(x.position(), e, 52);
    }
    double::lemma_on_grid(0);
}

/// Integers below `2^53` are ordered like the numbers that they are.
pub proof fn lemma_integers_compare(a: nat, b: nat)
    requires
        a < 0x20_0000_0000_0000,
        b < 0x20_0000_0000_0000,
    ensures
        double::of_quotient(a, 1).below(double::of_quotient(b, 1)) <==> a < b,
{
    let (x, y) = (double::of_quotient(a, 1), double::of_quotient(b, 1));
    double::lemma_small_integer(a);
    double::lemma_small_integer(b);
    power2::lemma_pow2_pos(double::UNIT as nat);
    let u = one();
    if x.position() < y.position() {
        grid::lemma_number_at_increases(x.position(), y.position(), 52);
    }
    if y.position() < x.position() {
        grid::lemma_number_at_increases(y.position(), x.position(), 52);
    }
    assert(a * u < b * u <==> a < b) by (nonlinear_arith)
        requires
            u > 0,
    ;
    assert(a * u == b * u <==> a == b) by (nonlinear_arith)
        requires
            u > 0,
    ;
}

/// A whole number that is exact is its own integer part.
pub proof fn lemma_exact_truncated(x: Double, k: nat)
    requires
        exactly(x, k as int, 0),
        k <= u64::MAX,
    ensures
        x.truncated() == k,
{
    lemma_fraction(x, k as int, 0);
    power2::lemma_pow2_pos(1074);
    let u = one() as int;
    vstd::arithmetic::div_mod::lemma_fundamental_div_mod_converse(k * u, u, k as int, 0);
    if k == 0 {
        double::lemma_on_grid(0);
    }
}

/// Which part of `s` eighths something falls into: the quotient is cut off where
/// the exact one is.
pub proof fn lemma_parts_are_cut(d: Double, w: Double, p: nat, s: nat)
    requires
        exactly(d, p as int, 0),
        exactly(w, s as int, 3),
        0 < s < 0x1_0000_0000,
        p < 0x1_0000_0000,
    ensures
        double::quotient(d, w).truncated() == (8 * p) / s,
{
    let q = double::quotient(d, w);
    let u = one() as int;
    let m: int = 0x20_0000_0000_0000;
    lemma_scale();
    lemma_fraction(d, p as int, 0);
    lemma_fraction(w, s as int, 3);
    power2::lemma2_to64();
    power2::lemma_pow2_pos(1071);
    power2::lemma_pow2_adds(3, 1071);
    double::lemma_on_grid(0);
    let e = power2::pow2(1071) as int;
    assert(u == 8 * e);
    let (x, y) = (double::magnitude(d.units()) as int, double::magnitude(w.units()) as int);
    assert(x == p * u && y == s * e);
    let k = (8 * p) / s;
    let rest = (8 * p) % s;
    vstd::arithmetic::div_mod::lemma_fundamental_div_mod(8 * p as int, s as int);
    assert(y > 0) by (nonlinear_arith)
        requires
            y == s * e,
            s > 0,
            e > 0,
    ;
    if p == 0 {
        assert(0 * u == 0) by (nonlinear_arith);
        double::lemma_nearest_zero(y as nat);
        assert(q.position() == 0);
        vstd::arithmetic::div_mod::lemma_fundamental_div_mod_converse(0, u, 0, 0);
        assert(k == 0) by (nonlinear_arith)
            requires
                0 == s * k + rest,
                s > 0,
                rest >= 0,
                k >= 0,
        ;
    } else {
        let g = power2::pow2(200) as int;
        let big = power2::pow2(2000) as int;
        assert(y * power2::pow2(52) <= x * u <= y * big) by (nonlinear_arith)
            requires
                x == p * u,
                y == s * e,
                u == 8 * e,
                1 <= p < 0x1_0000_0000,
                1 <= s < 0x1_0000_0000,
                u >= g,
                g >= 0x1_0000_0000_0000_0000 * 0x1_0000_0000_0000_0000 * 0x1_0000_0000_0000_0000,
                power2::pow2(52) == 0x10_0000_0000_0000,
                big >= u * g,
                e > 0,
        ;
        lemma_quotient_near(d, w);
        let z = q.units();
        lemma_two_sided(z * y, x * u, m, 1);
        assert(k <= 8 * p) by (nonlinear_arith)
            requires
                8 * p == s * k + rest,
                s >= 1,
                rest >= 0,
                k >= 0,
        ;
        assert(k * u * y <= x * u) by (nonlinear_arith)
            requires
                8 * p == s * k + rest,
                rest >= 0,
                x == p * u,
                y == s * e,
                u == 8 * e,
                e > 0,
        ;
        lemma_not_less((x * u) as nat, y as nat, k as nat, 1074);
        assert(k * u <= z);
        assert(z * s * m <= 8 * p * u * (m + 1)) by (nonlinear_arith)
            requires
                z * y * m <= x * u * (m + 1),
                x == p * u,
                y == s * e,
                u == 8 * e,
                e > 0,
        ;
        assert(z < (k + 1) * u) by (nonlinear_arith)
            requires
                z * s * m <= 8 * p * u * (m + 1),
                8 * p == s * k + rest,
                0 <= rest < s,
                1 <= s < 0x1_0000_0000,
                p < 0x1_0000_0000,
                m == 0x20_0000_0000_0000,
                u > 0,
                k >= 0,
        ;
        let over = z - k * u;
        assert((k + 1) * u == k * u + u && u * k == k * u) by (nonlinear_arith);
        vstd::arithmetic::div_mod::lemma_fundamental_div_mod_converse(z, u, k as int, over);
    }
}

/// Small integers do not reach the largest number.
pub proof fn lemma_largest(v: nat)
    requires
        v < 0x1_0000_0000,
    ensures
        double::of_quotient(v, 1).position() < 0x7fef_ffff_ffff_ffff,
{
    lemma_scale();
    double::lemma_small_integer(v);
    let x = double::of_quotient(v, 1);
    power2::lemma_pow2_adds(53, 1074);
    power2::lemma_pow2_adds(52, 1948);
    power2::lemma_pow2_unfold(53);
    rounding::lemma_pow2_le(1127, 2000);
    grid::lemma_number_at_parts(power2::pow2(52), 1948, 52);
    let k = 1948 * power2::pow2(52) + power2::pow2(52);
    let u = one();
    assert(v * u < power2::pow2(53) * u) by (nonlinear_arith)
        requires
            v < power2::pow2(53),
            u > 0,
    ;
    if x.position() >= k {
        if x.position() > k {
            grid::lemma_number_at_increases(k, x.position(), 52);
        }
    }
}

/// What is exactly a number that is not negative is not below zero.
pub proof fn lemma_exact_is_not_negative(x: Double, k: nat, j: nat)
    requires
        exactly(x, k as int, j),
        j <= 1074,
    ensures
        !x.is_nan(),
        x.rank() >= 0,
{
    lemma_fraction(x, k as int, j);
}

/// A sum of single-precision numbers is off by at most one part in `2^24`.
pub proof fn lemma_single_sum_near(a: Single, b: Single)
    requires
        !a.is_nan() && !a.is_infinite(),
        !b.is_nan() && !b.is_infinite(),
        !single::sum(a, b).is_infinite(),
    ensures
        !single::sum(a, b).is_nan(),
        apart(single::sum(a, b).units(), a.units() + b.units()) * 0x100_0000 <= double::magnitude(
            a.units() + b.units(),
        ),
{
    let v = a.units() + b.units();
    let n = double::magnitude(v);
    power2::lemma2_to64();
    if v == 0 {
        assert(single::sum(a, b).position() == 0);
        assert(grid::number_at(0, 23) == 0);
    } else {
        let inf = single::INFINITY as nat;
        let k = rounding::nearest(n, 1, 23, inf);
        let r = single::sum(a, b);
        assert(r == single::signed(v < 0, k));
        assert(k < inf);
        grid::lemma_nearest_error(n, 1, 23, inf);
        let x = grid::number_at(k, 23);
        assert(x * 1 == x && 1 * power2::pow2(23) == power2::pow2(23)) by (nonlinear_arith);
        if n < power2::pow2(23) {
            assert(1 * power2::pow2(24) == power2::pow2(24)) by (nonlinear_arith);
            rounding::lemma_doublings_are(n, 1, 23, 0);
            assert(1 * power2::pow2(0) == power2::pow2(0)) by (nonlinear_arith);
        }
    }
}

/// Widening changes no value.
pub proof fn lemma_widened_exact(a: Single)
    requires
        !a.is_nan() && !a.is_infinite(),
    ensures
        single::widened(a).is_finite(),
        single::widened(a).negative() == a.negative(),
        double::magnitude(single::widened(a).units()) == double::magnitude(a.units())
            * power2::pow2(925),
{
    let k = a.position();
    let w = power2::pow2(23);
    power2::lemma2_to64();
    let (v, e) = if k < w {
        (k, 0nat)
    } else {
        (w + k % w, (k / w - 1) as nat)
    };
    assert(k < w ==> v * power2::pow2(0) == v) by (nonlinear_arith)
        requires
            power2::pow2(0) == 1,
    ;
    assert(grid::number_at(k, 23) == v * power2::pow2(e));
    if k >= w {
        assert(1 <= k / w < 256 && k % w < w) by (nonlinear_arith)
            requires
                w == 0x80_0000,
                w <= k < 0x7f80_0000,
        ;
    }
    power2::lemma_pow2_adds(e, 925);
    let n = double::magnitude(a.units());
    assert(n * power2::pow2(925) == v * power2::pow2(e + 925) * 1) by (nonlinear_arith)
        requires
            n == v * power2::pow2(e),
            power2::pow2(e + 925) == power2::pow2(e) * power2::pow2(925),
    ;
    lemma_on_the_grid(v, e + 925, 1);
    lemma_signed(a.negative(), double::nearest(n * power2::pow2(925), 1));
    assert(v * power2::pow2(e + 925) == n * power2::pow2(925)) by (nonlinear_arith)
        requires
            n * power2::pow2(925) == v * power2::pow2(e + 925) * 1,
    ;
}

/// Whole seconds and the rest in billionths, added up, are off by at most six
/// parts in `2^53`.
pub proof fn lemma_seconds_near(ns: u64)
    ensures
        ({
            let (q, r) = (ns / 1_000_000_000, ns % 1_000_000_000);
            near(
                double::sum(
                    double::of_quotient(q as nat, 1),
                    double::quotient(
                        double::of_quotient(r as nat, 1),
                        double::of_quotient(1_000_000_000, 1),
                    ),
                ),
                ns as int,
                1_000_000_000,
                6,
            )
        }),
{
    let g: int = 1_000_000_000;
    let m: int = 0x20_0000_0000_0000;
    let (q, r) = ((ns / 1_000_000_000) as u64, (ns % 1_000_000_000) as u64);
    let u = one() as int;
    lemma_scale();
    double::lemma_small_integer(q as nat);
    lemma_integers_divide_near(r, 1_000_000_000);
    double::lemma_on_grid(0);
    let a = double::of_quotient(q as nat, 1);
    let b = double::quotient(
        double::of_quotient(r as nat, 1),
        double::of_quotient(1_000_000_000, 1),
    );
    let s = double::sum(a, b);
    let (x, y) = (a.units(), b.units());
    let v = x + y;
    lemma_two_sided(y * g, r * u, m, 4);
    let (qu, ru, nu) = (q * u, r * u, ns * u);
    assert(x == qu);
    assert(nu == g * qu + ru && qu >= 0 && ru >= 0) by (nonlinear_arith)
        requires
            nu == ns * u,
            qu == q * u,
            ru == r * u,
            ns == g * q + r,
            q >= 0,
            r >= 0,
            u > 0,
    ;
    let vg = v * g;
    assert(nu * (m - 4) <= vg * m <= nu * (m + 4)) by (nonlinear_arith)
        requires
            vg == v * g,
            v == qu + y,
            ru * (m - 4) <= y * g * m <= ru * (m + 4),
            nu == g * qu + ru,
            qu >= 0,
            g > 0,
            m == 0x20_0000_0000_0000,
    ;
    if ns == 0 {
        assert(nu == 0) by (nonlinear_arith)
            requires
                nu == ns * u,
                ns == 0,
        ;
        assert(v == 0) by (nonlinear_arith)
            requires
                vg == v * g,
                0 <= vg * m <= 0,
                g > 0,
                m > 0,
        ;
        assert(s.position() == 0);
        assert(0 * g == 0);
    } else {
        assert(nu >= u) by (nonlinear_arith)
            requires
                nu == ns * u,
                ns >= 1,
                u > 0,
        ;
        let (p200, big) = (power2::pow2(200) as int, power2::pow2(2000) as int);
        assert(1 * power2::pow2(52) <= v <= 1 * big) by (nonlinear_arith)
            requires
                nu * (m - 4) <= vg * m <= nu * (m + 4),
                vg == v * g,
                g == 1_000_000_000,
                u <= nu,
                nu == ns * u,
                ns <= 0xffff_ffff_ffff_ffff,
                m == 0x20_0000_0000_0000,
                u >= p200,
                p200 >= 0x1_0000_0000_0000_0000 * 0x1_0000_0000_0000_0000 * 0x1_0000_0000_0000_0000,
                power2::pow2(52) == 0x10_0000_0000_0000,
                big >= u * p200,
        ;
        lemma_rounded(v as nat, 1);
        lemma_signed(false, double::nearest(v as nat, 1));
        let z = s.units();
        assert(z * 1 == z) by (nonlinear_arith);
        lemma_two_sided(z, v, m, 1);
        let zg = z * g;
        assert(vg * (m - 1) <= zg * m <= vg * (m + 1)) by (nonlinear_arith)
            requires
                v * (m - 1) <= z * m <= v * (m + 1),
                vg == v * g,
                zg == z * g,
                g > 0,
        ;
        lemma_compose(vg, nu, zg, 4, m);
        lemma_one_bound(zg, nu, m, 6);
    }
}

/// Shifts a significand up as far as it goes.
proof fn lemma_shifted_up(v: nat, e: nat, p: nat) -> (r: (nat, nat))
    requires
        v < power2::pow2(p + 1),
    ensures
        r.0 * power2::pow2(r.1) == v * power2::pow2(e),
        r.0 < power2::pow2(p + 1),
        r.1 > 0 ==> r.0 >= power2::pow2(p),
        r.1 <= e,
    decreases e,
{
    power2::lemma_pow2_unfold(p + 1);
    if e == 0 || v >= power2::pow2(p) {
        (v, e)
    } else {
        power2::lemma_pow2_unfold(e);
        assert((2 * v) * power2::pow2((e - 1) as nat) == v * power2::pow2(e)) by (nonlinear_arith)
            requires
                power2::pow2(e) == 2 * power2::pow2((e - 1) as nat),
        ;
        lemma_shifted_up(2 * v, (e - 1) as nat, p)
    }
}

/// How many of the smallest single-precision numbers make up one.
pub open spec fn single_one() -> nat {
    power2::pow2(149)
}

/// Integers below `2^24` are single-precision numbers.
pub proof fn lemma_single_grid(v: nat)
    requires
        v < 0x100_0000,
    ensures
        rounding::nearest(v * single_one(), 1, 23, single::INFINITY as nat) < single::INFINITY,
        grid::number_at(rounding::nearest(v * single_one(), 1, 23, single::INFINITY as nat), 23)
            == v * single_one(),
{
    power2::lemma2_to64();
    let (q, f) = lemma_shifted_up(v, 149, 23);
    let w = power2::pow2(f);
    assert(v * single_one() == q * (1 * w)) by (nonlinear_arith)
        requires
            q * w == v * single_one(),
    ;
    assert(f * power2::pow2(23) + q < single::INFINITY) by (nonlinear_arith)
        requires
            f <= 149,
            q < 0x100_0000,
            power2::pow2(23) == 0x80_0000,
    ;
    rounding::lemma_nearest_exact(
        v * single_one(),
        1,
        q,
        f,
        23,
        single::INFINITY as nat,
    );
    grid::lemma_number_at_parts(q, f, 23);
}

/// `x` is exactly this integer.
pub open spec fn is_whole(x: Single, v: nat) -> bool {
    !x.is_nan() && !x.is_infinite() && x.units() == v * single_one()
}

pub proof fn lemma_whole_integer(v: nat)
    requires
        v < 0x100_0000,
    ensures
        is_whole(single::of_integer(v), v),
        !single::of_integer(v).negative(),
{
    lemma_single_grid(v);
}

/// Adding whole numbers is exact below `2^24`.
pub proof fn lemma_whole_sum(a: Single, b: Single, x: nat, y: nat)
    requires
        is_whole(a, x),
        is_whole(b, y),
        x + y < 0x100_0000,
    ensures
        is_whole(single::sum(a, b), x + y),
{
    let w = single_one();
    power2::lemma_pow2_pos(149);
    power2::lemma2_to64();
    assert((x + y) * w == x * w + y * w) by (nonlinear_arith);
    assert(x + y > 0 ==> (x + y) * w > 0) by (nonlinear_arith)
        requires
            w > 0,
    ;
    let v = a.units() + b.units();
    if v == 0 {
        assert(single::sum(a, b).position() == 0);
        assert(grid::number_at(0, 23) == 0);
    } else {
        lemma_single_grid(x + y);
        assert(v == (x + y) * w);
    }
}

/// Dividing whole numbers is off by at most one part in `2^24`.
pub proof fn lemma_whole_quotient(a: Single, s: nat, n: nat)
    requires
        is_whole(a, s),
        s < 0x100_0000,
        0 < n < 0x100_0000,
    ensures
        ({
            let r = single::quotient(a, single::of_integer(n));
            &&& !r.is_nan() && !r.is_infinite()
            &&& apart(r.units() * n, (s * single_one()) as int) * 0x100_0000 <= s * single_one()
        }),
{
    let b = single::of_integer(n);
    let r = single::quotient(a, b);
    let w = single_one();
    let inf = single::INFINITY as nat;
    lemma_whole_integer(n);
    power2::lemma_pow2_pos(149);
    power2::lemma2_to64();
    power2::lemma_pow2_adds(64, 85);
    power2::lemma_pow2_pos(85);
    let (x, y) = (double::magnitude(a.units()), double::magnitude(b.units()));
    assert(x == s * w && y == n * w);
    assert(y > 0 && n * w > 0) by (nonlinear_arith)
        requires
            y == n * w,
            n > 0,
            w > 0,
    ;
    assert(b.position() > 0) by {
        assert(grid::number_at(0, 23) == 0);
    }
    let num = x * w;
    if s == 0 {
        assert(x == 0 && num == 0) by (nonlinear_arith)
            requires
                x == s * w,
                num == x * w,
                s == 0,
        ;
        single::lemma_nearest_zero(y);
        assert(r.position() == 0);
        assert(grid::number_at(0, 23) == 0);
        assert(0 * n == 0) by (nonlinear_arith);
    } else {
        let top: nat = 0xff_ffff;
        lemma_single_grid(top);
        assert(num * 1 <= (top * w) * y) by (nonlinear_arith)
            requires
                num == x * w,
                x == s * w,
                y == n * w,
                s <= top,
                n >= 1,
                w > 0,
        ;
        rounding::lemma_nearest_monotonic(num, y, top * w, 1, 23, inf);
        assert(num >= y * power2::pow2(23)) by (nonlinear_arith)
            requires
                num == x * w,
                x == s * w,
                y == n * w,
                s >= 1,
                n < 0x100_0000,
                power2::pow2(23) == 0x80_0000,
                w >= 0x100_0000 * 0x80_0000,
        ;
        grid::lemma_nearest_error(num, y, 23, inf);
        let k = rounding::nearest(num, y, 23, inf);
        let z = grid::number_at(k, 23);
        assert(apart((z * y) as int, num as int) * 0x100_0000 <= num);
        let (zn, sw) = (z * n, s * w);
        assert(z * y == zn * w && num == sw * w) by (nonlinear_arith)
            requires
                zn == z * n,
                y == n * w,
                num == x * w,
                x == sw,
        ;
        lemma_two_sided((z * y) as int, num as int, 0x100_0000, 1);
        let m: int = 0x100_0000;
        assert(sw * (m - 1) <= zn * m <= sw * (m + 1)) by (nonlinear_arith)
            requires
                sw * w * (m - 1) <= zn * w * m <= sw * w * (m + 1),
                w > 0,
        ;
        lemma_one_bound(zn as int, sw as int, m, 1);
        assert(s * w > 0) by (nonlinear_arith)
            requires
                s > 0,
                w > 0,
        ;
        assert(!a.negative());
        assert(r == single::signed(false, k));
        assert(r.units() == z);
    }
}

/// Finite numbers are ordered like their values.
pub proof fn lemma_order_is_by_value(x: Double, y: Double)
    requires
        x.is_finite(),
        y.is_finite(),
    ensures
        x.below(y) <==> x.units() < y.units(),
        x.not_above(y) <==> x.units() <= y.units(),
{
    double::lemma_on_grid(0);
    let (a, b) = (x.position(), y.position());
    if a > 0 {
        double::lemma_on_grid(a);
    }
    if b > 0 {
        double::lemma_on_grid(b);
    }
    if a < b {
        grid::lemma_number_at_increases(a, b, 52);
    }
    if b < a {
        grid::lemma_number_at_increases(b, a, 52);
    }
}

} // verus!
