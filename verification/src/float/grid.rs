//! Arithmetic on positions of the floating-point grid, signs aside.

use crate::float::rounding;
use crate::float::rounding::{bit_length, power_of_two, round_bits};
use vstd::arithmetic::power2;
use vstd::prelude::*;

verus! {

/// The number at position `k`, counted in the smallest one of the format with
/// `p` fraction bits.
pub open spec fn number_at(k: nat, p: nat) -> nat {
    let w = power2::pow2(p);
    if k < w {
        k
    } else {
        (w + k % w) * power2::pow2((k / w - 1) as nat)
    }
}

/// `k` is a position of a format with `p` fraction bits and at most eleven
/// exponent bits.
pub open spec fn on_grid(k: nat, p: nat) -> bool {
    p <= 52 && k < 2047 * power2::pow2(p)
}

/// Splits a position into significand and exponent.
pub fn decode(k: u64, p: u32) -> (r: (u128, u32))
    requires
        on_grid(k as nat, p as nat),
    ensures
        r.0 * power2::pow2(r.1 as nat) == number_at(k as nat, p as nat),
        r.0 < power2::pow2((p + 1) as nat),
        r.1 > 0 ==> r.0 >= power2::pow2(p as nat),
        r.0 > 0 <==> k > 0,
        r.1 <= 2046,
        r.1 == if k < power2::pow2(p as nat) {
            0
        } else {
            k as nat / power2::pow2(p as nat) - 1
        },
{
    let w: u128 = power_of_two(p);
    let k: u128 = k as u128;
    proof {
        power2::lemma_pow2_unfold((p + 1) as nat);
        power2::lemma2_to64();
        power2::lemma_pow2_pos(p as nat);
        rounding::lemma_pow2_le(p as nat, 52);
        power2::lemma2_to64_rest();
        assert(k * 1 == k) by (nonlinear_arith);
    }
    if k < w {
        (k, 0)
    } else {
        proof {
            assert(1 <= k / w < 2047) by (nonlinear_arith)
                requires
                    w <= k < 2047 * w,
                    w > 0,
            ;
        }
        (w + k % w, (k / w - 1) as u32)
    }
}

/// Both terms of a quotient may carry a common factor.
proof fn lemma_truncates(a: nat, b: nat, q: nat, r: nat, c: nat, ex: int, n: nat, d: nat)
    requires
        a == q * b + r,
        r < b,
        c > 0,
        n * rounding::up(-ex) == a * c,
        d * rounding::up(ex) == b * c,
    ensures
        rounding::truncates(q, ex, r != 0, n, d),
{
    assert(q * (b * c) <= a * c < (q + 1) * (b * c)) by (nonlinear_arith)
        requires
            a == q * b + r,
            0 <= r < b,
            c > 0,
    ;
    assert(r != 0 <==> q * (b * c) != a * c) by (nonlinear_arith)
        requires
            a == q * b + r,
            0 <= r,
            c > 0,
    ;
}

proof fn lemma_pow2_53()
    ensures
        power2::pow2(53) == 0x20_0000_0000_0000,
        power2::pow2(120) == 0x100_0000_0000_0000_0000_0000_0000_0000,
{
    power2::lemma2_to64();
    power2::lemma2_to64_rest();
    power2::lemma_pow2_adds(60, 60);
}

/// The product of two numbers, counted in units of `2^-unit`.
pub fn multiply(a: u64, b: u64, p: u32, inf: u64, unit: u32) -> (k: u64)
    requires
        on_grid(a as nat, p as nat),
        on_grid(b as nat, p as nat),
        unit <= 2000,
    ensures
        k == rounding::nearest(
            number_at(a as nat, p as nat) * number_at(b as nat, p as nat),
            power2::pow2(unit as nat),
            p as nat,
            inf as nat,
        ),
{
    let (ma, ea) = decode(a, p);
    let (mb, eb) = decode(b, p);
    proof {
        rounding::lemma_pow2_le((p + 1) as nat, 53);
        lemma_pow2_53();
        assert(0 <= ma * mb < 0x20_0000_0000_0000 * 0x20_0000_0000_0000) by (nonlinear_arith)
            requires
                0 <= ma < 0x20_0000_0000_0000,
                0 <= mb < 0x20_0000_0000_0000,
        ;
    }
    let m: u128 = ma * mb;
    let ex: i32 = ea as i32 + eb as i32 - unit as i32;
    let ghost n = number_at(a as nat, p as nat) * number_at(b as nat, p as nat);
    let ghost d = power2::pow2(unit as nat);
    proof {
        power2::lemma2_to64();
        power2::lemma_pow2_pos(unit as nat);
        let wa = power2::pow2(ea as nat);
        let wb = power2::pow2(eb as nat);
        power2::lemma_pow2_adds(ea as nat, eb as nat);
        let s = power2::pow2((ea + eb) as nat);
        assert(n == m * s) by (nonlinear_arith)
            requires
                n == (ma * wa) * (mb * wb),
                m == ma * mb,
                s == wa * wb,
        ;
        if ex >= 0 {
            power2::lemma_pow2_adds(unit as nat, ex as nat);
            power2::lemma_pow2_pos(s);
            assert(unit as nat + ex as nat == (ea + eb) as nat);
            power2::lemma_pow2_pos((ea + eb) as nat);
            assert(n * 1 == n) by (nonlinear_arith);
            assert(1 * s == s) by (nonlinear_arith);
            lemma_truncates(m as nat, 1, m as nat, 0, s, ex as int, n, d);
        } else {
            power2::lemma_pow2_adds((ea + eb) as nat, -ex as nat);
            let t = power2::pow2(-ex as nat);
            assert(n * t == m * d) by (nonlinear_arith)
                requires
                    n == m * s,
                    s * t == d,
            ;
            assert(d * 1 == 1 * d) by (nonlinear_arith);
            lemma_truncates(m as nat, 1, m as nat, 0, d, ex as int, n, d);
        }
    }
    round_bits(m, ex, false, p, inf, Ghost(n), Ghost(d))
}

/// The quotient of two numbers, counted in units of `2^-unit`.
pub fn divide(a: u64, b: u64, p: u32, inf: u64, unit: u32) -> (k: u64)
    requires
        on_grid(a as nat, p as nat),
        on_grid(b as nat, p as nat),
        b > 0,
        unit <= 1100,
    ensures
        k == rounding::nearest(
            number_at(a as nat, p as nat) * power2::pow2(unit as nat),
            number_at(b as nat, p as nat),
            p as nat,
            inf as nat,
        ),
{
    let (ma, ea) = decode(a, p);
    let (mb, eb) = decode(b, p);
    let la: u32 = bit_length(ma);
    proof {
        if la > p + 1 {
            rounding::lemma_pow2_le((p + 1) as nat, (la - 1) as nat);
        }
    }
    let s: u32 = p + 1 - la + 66;
    let f: u128 = power_of_two(s);
    let ghost n = number_at(a as nat, p as nat) * power2::pow2(unit as nat);
    let ghost d = number_at(b as nat, p as nat);
    proof {
        power2::lemma_pow2_pos(s as nat);
        power2::lemma_pow2_adds(la as nat, s as nat);
        rounding::lemma_pow2_le((la + s) as nat, 120);
        rounding::lemma_pow2_le((p + 1) as nat, 53);
        lemma_pow2_53();
        let big = power2::pow2(la as nat);
        assert(0 <= ma * f < big * f) by (nonlinear_arith)
            requires
                0 <= ma < big,
                f > 0,
        ;
    }
    let num: u128 = ma * f;
    let q: u128 = num / mb;
    let r: u128 = num % mb;
    let ex: i32 = ea as i32 - s as i32 - eb as i32 + unit as i32;
    proof {
        vstd::arithmetic::div_mod::lemma_fundamental_div_mod(num as int, mb as int);
        assert(mb * q == q * mb) by (nonlinear_arith);
        assert(q <= num) by (nonlinear_arith)
            requires
                num == q * mb + r,
                mb >= 1,
                r >= 0,
                q >= 0,
        ;
        let wa = power2::pow2(ea as nat);
        let wb = power2::pow2(eb as nat);
        let u = power2::pow2(unit as nat);
        power2::lemma_pow2_pos(eb as nat);
        power2::lemma_pow2_pos(ea as nat);
        assert(d > 0) by (nonlinear_arith)
            requires
                d == mb * wb,
                mb > 0,
                wb > 0,
        ;
        power2::lemma2_to64();
        if ex >= 0 {
            let t = power2::pow2(ex as nat);
            power2::lemma_pow2_pos(ex as nat);
            power2::lemma_pow2_adds(ea as nat, unit as nat);
            power2::lemma_pow2_adds(s as nat, eb as nat);
            power2::lemma_pow2_adds((s + eb) as nat, ex as nat);
            assert((ea + unit) as nat == (s + eb) as nat + ex as nat);
            assert(wa * u == (f * wb) * t);
            assert(n * 1 == num * (wb * t)) by (nonlinear_arith)
                requires
                    n == (ma * wa) * u,
                    wa * u == (f * wb) * t,
                    num == ma * f,
            ;
            assert(d * t == mb * (wb * t)) by (nonlinear_arith)
                requires
                    d == mb * wb,
            ;
            assert(wb * t > 0) by (nonlinear_arith)
                requires
                    wb > 0,
                    t > 0,
            ;
            lemma_truncates(
                num as nat,
                mb as nat,
                q as nat,
                r as nat,
                wb * t,
                ex as int,
                n,
                d,
            );
        } else {
            let t = power2::pow2(-ex as nat);
            power2::lemma_pow2_adds(ea as nat, unit as nat);
            power2::lemma_pow2_adds((ea + unit) as nat, -ex as nat);
            power2::lemma_pow2_adds(s as nat, eb as nat);
            assert((ea + unit) as nat + -ex as nat == (s + eb) as nat);
            assert((wa * u) * t == f * wb);
            assert(n * t == num * wb) by (nonlinear_arith)
                requires
                    n == (ma * wa) * u,
                    (wa * u) * t == f * wb,
                    num == ma * f,
            ;
            assert(d * 1 == mb * wb) by (nonlinear_arith)
                requires
                    d == mb * wb,
            ;
            lemma_truncates(num as nat, mb as nat, q as nat, r as nat, wb, ex as int, n, d);
        }
        if r != 0 {
            let low = power2::pow2((la - 1) as nat);
            let want = power2::pow2((p + 2) as nat);
            assert(ma > 0) by {
                if ma == 0 {
                    assert(0 * f == 0) by (nonlinear_arith);
                    assert(num == 0);
                }
            }
            power2::lemma_pow2_pos((p + 2) as nat);
            power2::lemma_pow2_adds((la - 1) as nat, s as nat);
            assert(num >= low * f) by (nonlinear_arith)
                requires
                    num == ma * f,
                    ma >= low,
                    f > 0,
            ;
            rounding::lemma_pow2_le((2 * p + 4) as nat, (la - 1 + s) as nat);
            assert((2 * p + 4) as nat == (p + 3) as nat + (p + 1) as nat);
            power2::lemma_pow2_adds((p + 3) as nat, (p + 1) as nat);
            power2::lemma_pow2_unfold((p + 3) as nat);
            let full = power2::pow2((p + 1) as nat);
            assert(q >= want) by (nonlinear_arith)
                requires
                    num >= low * f,
                    low * f >= (2 * want) * full,
                    num == q * mb + r,
                    0 <= r < mb <= full,
                    want >= 1,
            ;
        }
    }
    round_bits(q, ex, r != 0, p, inf, Ghost(n), Ghost(d))
}

/// A later position holds a larger number.
pub proof fn lemma_number_at_increases(j: nat, k: nat, p: nat)
    requires
        j < k,
    ensures
        number_at(j, p) < number_at(k, p),
{
    let w = power2::pow2(p);
    power2::lemma_pow2_pos(p);
    if k >= w {
        let eb = (k / w - 1) as nat;
        vstd::arithmetic::div_mod::lemma_fundamental_div_mod(k as int, w as int);
        assert(k / w >= 1) by (nonlinear_arith)
            requires
                k >= w,
                w > 0,
        ;
        power2::lemma_pow2_pos(eb);
        let t = power2::pow2(eb);
        if j < w {
            assert((w + k % w) * t >= w) by (nonlinear_arith)
                requires
                    t >= 1,
                    k % w >= 0,
                    w > 0,
            ;
        } else {
            let ea = (j / w - 1) as nat;
            vstd::arithmetic::div_mod::lemma_fundamental_div_mod(j as int, w as int);
            assert(j / w >= 1) by (nonlinear_arith)
                requires
                    j >= w,
                    w > 0,
            ;
            vstd::arithmetic::div_mod::lemma_div_is_ordered(j as int, k as int, w as int);
            power2::lemma_pow2_pos(ea);
            if ea == eb {
                assert((w + j % w) * t < (w + k % w) * t) by (nonlinear_arith)
                    requires
                        w + j % w < w + k % w,
                        t > 0,
                ;
            } else {
                let u = power2::pow2(ea);
                power2::lemma_pow2_unfold(ea + 1);
                rounding::lemma_pow2_le(ea + 1, eb);
                assert((w + j % w) * u < (w + k % w) * t) by (nonlinear_arith)
                    requires
                        2 * u <= t,
                        0 <= j % w < w,
                        0 <= k % w,
                        u > 0,
                ;
            }
        }
    }
}

/// The number that a significand and an exponent stand for. A significand that
/// was rounded up to the next power of two stands for the same number.
pub proof fn lemma_number_at_parts(q: nat, e: nat, p: nat)
    requires
        q <= power2::pow2(p + 1),
        e > 0 ==> q >= power2::pow2(p),
    ensures
        number_at(e * power2::pow2(p) + q, p) == q * power2::pow2(e),
{
    let w = power2::pow2(p);
    power2::lemma_pow2_unfold(p + 1);
    power2::lemma_pow2_pos(p);
    power2::lemma2_to64();
    let k = e * w + q;
    if q < w {
        assert(e * w == 0) by (nonlinear_arith)
            requires
                e == 0,
        ;
        assert(q * 1 == q) by (nonlinear_arith);
    } else if q < 2 * w {
        assert(k == (e + 1) * w + (q - w)) by (nonlinear_arith)
            requires
                k == e * w + q,
        ;
        vstd::arithmetic::div_mod::lemma_fundamental_div_mod_converse(
            k as int,
            w as int,
            (e + 1) as int,
            q - w,
        );
        assert(k >= w) by (nonlinear_arith)
            requires
                k == e * w + q,
                q >= w,
                e >= 0,
        ;
    } else {
        assert(k == (e + 2) * w) by (nonlinear_arith)
            requires
                k == e * w + 2 * w,
        ;
        vstd::arithmetic::div_mod::lemma_fundamental_div_mod_converse(
            k as int,
            w as int,
            (e + 2) as int,
            0,
        );
        assert(k >= w) by (nonlinear_arith)
            requires
                k == (e + 2) * w,
                e >= 0,
                w >= 0,
        ;
        power2::lemma_pow2_unfold(e + 1);
        let t = power2::pow2(e);
        assert((w + 0) * (2 * t) == (2 * w) * t) by (nonlinear_arith);
    }
}

/// The number nearest to `n / d` is off by at most half a spacing, and above the
/// range where the grid is evenly spaced by at most one part in `2^(p + 1)`.
pub proof fn lemma_nearest_error(n: nat, d: nat, p: nat, inf: nat)
    requires
        d > 0,
        rounding::nearest(n, d, p, inf) < inf,
    ensures
        ({
            let x = number_at(rounding::nearest(n, d, p, inf), p);
            let off = if x * d >= n {
                x * d - n
            } else {
                n - x * d
            };
            &&& 2 * off <= d * power2::pow2(rounding::doublings(n, d, p))
            &&& n >= d * power2::pow2(p) ==> off * power2::pow2(p + 1) <= n
        }),
{
    let e = rounding::doublings(n, d, p);
    let w = power2::pow2(e);
    let dw = d * w;
    rounding::lemma_doublings_bounds(n, d, p);
    power2::lemma_pow2_pos(e);
    power2::lemma_pow2_pos(p);
    power2::lemma_pow2_adds(p + 1, e);
    power2::lemma_pow2_adds(p, e);
    power2::lemma_pow2_unfold(p + 1);
    assert(dw > 0) by (nonlinear_arith)
        requires
            d > 0,
            w > 0,
            dw == d * w,
    ;
    let (whole, r) = (n / dw, n % dw);
    vstd::arithmetic::div_mod::lemma_fundamental_div_mod(n as int, dw as int);
    let q = rounding::half_even(n, dw);
    let top = power2::pow2(p + 1);
    assert(whole < top) by (nonlinear_arith)
        requires
            n == dw * whole + r,
            r >= 0,
            n < d * (top * w),
            dw == d * w,
            dw > 0,
    ;
    let half = power2::pow2(p);
    if e > 0 {
        assert(whole >= half) by (nonlinear_arith)
            requires
                n == dw * whole + r,
                r < dw,
                n >= d * (half * w),
                dw == d * w,
                dw > 0,
        ;
    }
    lemma_number_at_parts(q, e, p);
    let x = q * w;
    assert(x * d == q * dw) by (nonlinear_arith)
        requires
            x == q * w,
            dw == d * w,
    ;
    assert((whole + 1) * dw == dw * whole + dw) by (nonlinear_arith);
    assert(whole * dw == dw * whole) by (nonlinear_arith);
    let off = (if x * d >= n {
        x * d - n
    } else {
        n - x * d
    }) as nat;
    assert(2 * off <= dw);
    if n >= d * half {
        assert(dw * half <= n) by {
            if e > 0 {
                assert(dw * half == d * (half * w)) by (nonlinear_arith)
                    requires
                        dw == d * w,
                ;
            } else {
                power2::lemma2_to64();
                assert(d * 1 == d) by (nonlinear_arith);
            }
        }
        assert(off * top <= n) by (nonlinear_arith)
            requires
                2 * off <= dw,
                dw * half <= n,
                top == 2 * half,
                half > 0,
        ;
    }
}

/// Distance from which the smaller operand only shows as a trace below the
/// larger one.
const FAR: u32 = 60;

/// The sum of two numbers.
pub fn plus(a: u64, b: u64, p: u32, inf: u64) -> (k: u64)
    requires
        on_grid(a as nat, p as nat),
        on_grid(b as nat, p as nat),
    ensures
        k == rounding::nearest(
            number_at(a as nat, p as nat) + number_at(b as nat, p as nat),
            1,
            p as nat,
            inf as nat,
        ),
{
    if a < b {
        return plus_ordered(b, a, p, inf);
    }
    plus_ordered(a, b, p, inf)
}

proof fn lemma_exponents_ordered(a: nat, b: nat, p: nat)
    requires
        b <= a,
    ensures
        a >= power2::pow2(p) && b >= power2::pow2(p) ==> b / power2::pow2(p) <= a / power2::pow2(p),
        a >= power2::pow2(p) ==> a / power2::pow2(p) >= 1,
{
    let w = power2::pow2(p);
    power2::lemma_pow2_pos(p);
    vstd::arithmetic::div_mod::lemma_div_is_ordered(b as int, a as int, w as int);
    if a >= w {
        assert(a / w >= 1) by (nonlinear_arith)
            requires
                a >= w,
                w > 0,
        ;
    }
}

fn plus_ordered(a: u64, b: u64, p: u32, inf: u64) -> (k: u64)
    requires
        on_grid(a as nat, p as nat),
        on_grid(b as nat, p as nat),
        b <= a,
    ensures
        k == rounding::nearest(
            number_at(a as nat, p as nat) + number_at(b as nat, p as nat),
            1,
            p as nat,
            inf as nat,
        ),
{
    let (ma, ea) = decode(a, p);
    let (mb, eb) = decode(b, p);
    let ghost n = number_at(a as nat, p as nat) + number_at(b as nat, p as nat);
    proof {
        lemma_exponents_ordered(a as nat, b as nat, p as nat);
        rounding::lemma_pow2_le((p + 1) as nat, 53);
        lemma_pow2_53();
        power2::lemma2_to64();
    }
    if ea - eb <= FAR {
        let f: u128 = power_of_two(ea - eb);
        proof {
            lemma_aligned(ma, ea, mb, eb, f);
        }
        let m: u128 = ma * f + mb;
        proof {
            let t = power2::pow2(eb as nat);
            power2::lemma_pow2_pos(eb as nat);
            assert(n == m * t) by (nonlinear_arith)
                requires
                    n == ma * (f * t) + mb * t,
                    m == ma * f + mb,
            ;
            lemma_whole(m as nat, eb as int, n);
        }
        round_bits(m, eb as i32, false, p, inf, Ghost(n), Ghost(1))
    } else {
        let m: u128 = ma * 64;
        proof {
            lemma_far(ma, ea, mb, eb, p);
            let t = power2::pow2((ea - 6) as nat);
            let low = mb * power2::pow2(eb as nat);
            assert(1 * t == t) by (nonlinear_arith);
            assert(m * t <= n < (m + 1) * t) by (nonlinear_arith)
                requires
                    n == m * t + low,
                    0 <= low < t,
            ;
            assert(n * 1 == n) by (nonlinear_arith);
            power2::lemma_pow2_pos(eb as nat);
            assert(mb > 0 <==> low != 0) by (nonlinear_arith)
                requires
                    low == mb * power2::pow2(eb as nat),
                    power2::pow2(eb as nat) > 0,
                    mb >= 0,
            ;
        }
        round_bits(m, ea as i32 - 6, mb > 0, p, inf, Ghost(n), Ghost(1))
    }
}

/// The difference of two numbers, the larger one first.
pub fn minus(a: u64, b: u64, p: u32, inf: u64) -> (k: u64)
    requires
        on_grid(a as nat, p as nat),
        on_grid(b as nat, p as nat),
        b <= a,
    ensures
        k == rounding::nearest(
            (number_at(a as nat, p as nat) - number_at(b as nat, p as nat)) as nat,
            1,
            p as nat,
            inf as nat,
        ),
{
    let (ma, ea) = decode(a, p);
    let (mb, eb) = decode(b, p);
    proof {
        lemma_exponents_ordered(a as nat, b as nat, p as nat);
        rounding::lemma_pow2_le((p + 1) as nat, 53);
        lemma_pow2_53();
        power2::lemma2_to64();
        if b < a {
            lemma_number_at_increases(b as nat, a as nat, p as nat);
        }
    }
    let ghost n = (number_at(a as nat, p as nat) - number_at(b as nat, p as nat)) as nat;
    if ea - eb <= FAR {
        let f: u128 = power_of_two(ea - eb);
        proof {
            lemma_aligned(ma, ea, mb, eb, f);
            let t = power2::pow2(eb as nat);
            power2::lemma_pow2_pos(eb as nat);
            assert(mb <= ma * f) by (nonlinear_arith)
                requires
                    ma * (f * t) >= mb * t,
                    t > 0,
            ;
        }
        let m: u128 = ma * f - mb;
        proof {
            let t = power2::pow2(eb as nat);
            assert(n == m * t) by (nonlinear_arith)
                requires
                    n == ma * (f * t) - mb * t,
                    m == ma * f - mb,
            ;
            lemma_whole(m as nat, eb as int, n);
        }
        round_bits(m, eb as i32, false, p, inf, Ghost(n), Ghost(1))
    } else {
        proof {
            lemma_far(ma, ea, mb, eb, p);
            power2::lemma_pow2_pos(p as nat);
            power2::lemma_pow2_unfold((p + 1) as nat);
            power2::lemma_pow2_unfold((p + 2) as nat);
        }
        let m: u128 = if mb > 0 {
            ma * 64 - 1
        } else {
            ma * 64
        };
        proof {
            let t = power2::pow2((ea - 6) as nat);
            let low = mb * power2::pow2(eb as nat);
            assert(1 * t == t) by (nonlinear_arith);
            power2::lemma_pow2_pos(eb as nat);
            assert(mb > 0 <==> low != 0) by (nonlinear_arith)
                requires
                    low == mb * power2::pow2(eb as nat),
                    power2::pow2(eb as nat) > 0,
                    mb >= 0,
            ;
            let whole = ma * 64;
            assert(m * t <= n < (m + 1) * t && (mb > 0 <==> m * t != n)) by (nonlinear_arith)
                requires
                    n == whole * t - low,
                    0 <= low < t,
                    mb > 0 <==> low != 0,
                    mb > 0 ==> m == whole - 1,
                    !(mb > 0) ==> m == whole,
            ;
            assert(n * 1 == n) by (nonlinear_arith);
        }
        round_bits(m, ea as i32 - 6, mb > 0, p, inf, Ghost(n), Ghost(1))
    }
}

proof fn lemma_aligned(ma: u128, ea: u32, mb: u128, eb: u32, f: u128)
    requires
        ma < 0x20_0000_0000_0000,
        mb < 0x20_0000_0000_0000,
        eb <= ea,
        ea - eb <= FAR,
        f == power2::pow2((ea - eb) as nat),
    ensures
        ma * f + mb < 0x100_0000_0000_0000_0000_0000_0000_0000,
        power2::pow2(ea as nat) == f * power2::pow2(eb as nat),
{
    power2::lemma_pow2_adds((ea - eb) as nat, eb as nat);
    rounding::lemma_pow2_le((ea - eb) as nat, 60);
    power2::lemma2_to64_rest();
    assert(ma * f <= 0x20_0000_0000_0000 * 0x1000_0000_0000_0000) by (nonlinear_arith)
        requires
            ma < 0x20_0000_0000_0000,
            f <= 0x1000_0000_0000_0000,
    ;
}

proof fn lemma_far(ma: u128, ea: u32, mb: u128, eb: u32, p: u32)
    requires
        p <= 52,
        mb < power2::pow2((p + 1) as nat),
        ma >= power2::pow2(p as nat),
        eb <= ea,
        ea - eb > FAR,
    ensures
        ma * power2::pow2(ea as nat) == (ma * 64) * power2::pow2((ea - 6) as nat),
        mb * power2::pow2(eb as nat) < power2::pow2((ea - 6) as nat),
        ma * 64 >= power2::pow2((p + 2) as nat) + 1,
{
    power2::lemma2_to64();
    power2::lemma_pow2_adds(6, (ea - 6) as nat);
    let t = power2::pow2((ea - 6) as nat);
    assert(ma * (64 * t) == (ma * 64) * t) by (nonlinear_arith);
    let s = power2::pow2(eb as nat);
    power2::lemma_pow2_pos(eb as nat);
    let full = power2::pow2((p + 1) as nat);
    power2::lemma_pow2_adds((p + 1) as nat, eb as nat);
    rounding::lemma_pow2_le((p + 1 + eb) as nat, (ea - 6) as nat);
    assert(mb * s < full * s) by (nonlinear_arith)
        requires
            mb < full,
            s > 0,
    ;
    power2::lemma_pow2_pos(p as nat);
    power2::lemma_pow2_unfold((p + 1) as nat);
    power2::lemma_pow2_unfold((p + 2) as nat);
}

pub proof fn lemma_whole(m: nat, ex: int, n: nat)
    requires
        ex >= 0,
        n == m * power2::pow2(ex as nat),
    ensures
        rounding::truncates(m, ex, false, n, 1),
{
    power2::lemma2_to64();
    let t = power2::pow2(ex as nat);
    power2::lemma_pow2_pos(ex as nat);
    assert(1 * t == t) by (nonlinear_arith);
    assert(n * 1 == n) by (nonlinear_arith);
    assert(m * t < (m + 1) * t) by (nonlinear_arith)
        requires
            t > 0,
    ;
}

/// An integer on a grid whose unit is `2^-unit`.
pub fn integer(v: u64, p: u32, inf: u64, unit: u32) -> (k: u64)
    requires
        p <= 52,
        unit <= 1100,
    ensures
        k == rounding::nearest(v as nat * power2::pow2(unit as nat), 1, p as nat, inf as nat),
{
    let ghost n = v as nat * power2::pow2(unit as nat);
    proof {
        lemma_whole(v as nat, unit as int, n);
        lemma_pow2_53();
    }
    round_bits(v as u128, unit as i32, false, p, inf, Ghost(n), Ghost(1))
}

/// The integer part of a number counted in units of `2^-unit`, held at the
/// largest `u64`, and whether a fraction follows it.
pub fn integer_part(k: u64, p: u32, unit: u32) -> (r: (u64, bool))
    requires
        on_grid(k as nat, p as nat),
        unit <= 1100,
    ensures
        ({
            let whole = number_at(k as nat, p as nat) / power2::pow2(unit as nat);
            let rest = number_at(k as nat, p as nat) % power2::pow2(unit as nat);
            &&& r.0 == if whole <= u64::MAX { whole } else { u64::MAX as nat }
            &&& r.1 == (rest != 0)
            &&& r.1 ==> whole < 0x20_0000_0000_0000
        }),
{
    let (m, e) = decode(k, p);
    let ghost x = number_at(k as nat, p as nat);
    let ghost u = power2::pow2(unit as nat);
    proof {
        power2::lemma_pow2_pos(unit as nat);
        rounding::lemma_pow2_le((p + 1) as nat, 53);
        lemma_pow2_53();
    }
    if e >= unit {
        let s: u32 = e - unit;
        let ghost w = power2::pow2(s as nat);
        proof {
            power2::lemma_pow2_pos(s as nat);
            power2::lemma_pow2_adds(s as nat, unit as nat);
            assert(x == (m * w) * u + 0) by (nonlinear_arith)
                requires
                    x == m * (w * u),
            ;
            vstd::arithmetic::div_mod::lemma_fundamental_div_mod_converse(
                x as int,
                u as int,
                (m * w) as int,
                0,
            );
        }
        if m == 0 {
            assert(0 * w == 0) by (nonlinear_arith);
            return (0, false);
        }
        if s > 64 {
            proof {
                rounding::lemma_pow2_le(64, s as nat);
                power2::lemma2_to64();
                assert(m * w >= w) by (nonlinear_arith)
                    requires
                        m >= 1,
                        w > 0,
                ;
            }
            return (u64::MAX, false);
        }
        let f: u128 = power_of_two(s);
        proof {
            rounding::lemma_pow2_le(s as nat, 64);
            power2::lemma2_to64();
            assert(m * f <= 0x20_0000_0000_0000 * 0x1_0000_0000_0000_0000) by (nonlinear_arith)
                requires
                    m <= 0x20_0000_0000_0000,
                    f <= 0x1_0000_0000_0000_0000,
            ;
        }
        let v: u128 = m * f;
        if v <= u64::MAX as u128 {
            (v as u64, false)
        } else {
            (u64::MAX, false)
        }
    } else {
        let t: u32 = unit - e;
        let ghost w = power2::pow2(t as nat);
        let ghost b = power2::pow2(e as nat);
        proof {
            power2::lemma_pow2_pos(t as nat);
            power2::lemma_pow2_pos(e as nat);
            power2::lemma_pow2_adds(t as nat, e as nat);
            vstd::arithmetic::div_mod::lemma_fundamental_div_mod(m as int, w as int);
            let q = m as nat / w;
            let r = m as nat % w;
            assert(x == q * u + r * b) by (nonlinear_arith)
                requires
                    x == m * b,
                    m == w * q + r,
                    u == w * b,
            ;
            assert(0 <= r * b < u) by (nonlinear_arith)
                requires
                    0 <= r < w,
                    u == w * b,
                    b > 0,
            ;
            vstd::arithmetic::div_mod::lemma_fundamental_div_mod_converse(
                x as int,
                u as int,
                q as int,
                (r * b) as int,
            );
            assert(r * b != 0 <==> r != 0) by (nonlinear_arith)
                requires
                    b > 0,
            ;
            assert(q <= m) by (nonlinear_arith)
                requires
                    m == w * q + r,
                    w >= 1,
                    r >= 0,
                    q >= 0,
            ;
        }
        if t > 53 {
            proof {
                rounding::lemma_pow2_le(53, t as nat);
                vstd::arithmetic::div_mod::lemma_fundamental_div_mod_converse(
                    m as int,
                    w as int,
                    0,
                    m as int,
                );
            }
            (0, m != 0)
        } else {
            let f: u128 = power_of_two(t);
            ((m / f) as u64, m % f != 0)
        }
    }
}

} // verus!
