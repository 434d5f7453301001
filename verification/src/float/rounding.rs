//! Rounding an exact quotient to a binary floating-point grid.
//!
//! The finite, non-negative numbers of an IEEE-754 binary format are integer
//! multiples of the smallest one. Counted in that unit, number `k` of the grid
//! with `p` fraction bits is `k` itself below `2^(p+1)`, and above it the grid
//! thins out: every further `2^p` numbers the spacing doubles. The bit pattern
//! of a number (its sign aside) is exactly its position `k` on the grid, which
//! is why rounding can be stated on positions alone.

use vstd::arithmetic::power2;
use vstd::prelude::*;

verus! {

/// `n / d` rounded to the nearest integer, halves to the even neighbour.
pub open spec fn half_even(n: nat, d: nat) -> nat {
    let q = n / d;
    let r = n % d;
    if 2 * r < d || (2 * r == d && q % 2 == 0) {
        q
    } else {
        q + 1
    }
}

/// How many times the spacing has doubled at `n / d`: the least `e` for which
/// `n / d < 2^(p + 1 + e)`.
pub open spec fn doublings(n: nat, d: nat, p: nat) -> nat
    decreases n - d,
{
    if d == 0 || n < d * power2::pow2(p + 1) {
        0
    } else {
        proof {
            power2::lemma_pow2_pos(p + 1);
            power2::lemma_pow2_unfold(p + 1);
            power2::lemma_pow2_pos(p);
            assert(d * power2::pow2(p + 1) >= 2 * d) by (nonlinear_arith)
                requires
                    power2::pow2(p + 1) >= 2,
                    d > 0,
            ;
        }
        1 + doublings(n, 2 * d, p)
    }
}

/// Position on the grid of the number nearest to `n / d`, ties to the even
/// position; `inf` when that lies beyond the largest finite number.
pub open spec fn nearest(n: nat, d: nat, p: nat, inf: nat) -> nat {
    let e = doublings(n, d, p);
    let k = e * power2::pow2(p) + half_even(n, d * power2::pow2(e));
    if k < inf {
        k
    } else {
        inf
    }
}

/// `2^x` for `x >= 0`, and `1` below.
pub open spec fn up(x: int) -> nat {
    if x >= 0 {
        power2::pow2(x as nat)
    } else {
        1
    }
}

/// `m` is the integer part of `n / d / 2^ex`, and `inexact` says whether a
/// fraction was left behind.
pub open spec fn truncates(m: nat, ex: int, inexact: bool, n: nat, d: nat) -> bool {
    let num = n * up(-ex);
    let den = d * up(ex);
    &&& m * den <= num < (m + 1) * den
    &&& inexact <==> m * den != num
}

pub proof fn lemma_up_adds(a: int, b: int)
    requires
        a >= 0,
        b >= 0,
    ensures
        up(a + b) == up(a) * up(b),
        up(a) > 0,
{
    power2::lemma_pow2_adds(a as nat, b as nat);
    power2::lemma_pow2_pos(a as nat);
}

pub proof fn lemma_pow2_le(a: nat, b: nat)
    requires
        a <= b,
    ensures
        power2::pow2(a) <= power2::pow2(b),
{
    if a < b {
        power2::lemma_pow2_strictly_increases(a, b);
    }
}

/// The doublings are pinned down by the two bounds around `n / d`.
pub proof fn lemma_doublings_are(n: nat, d: nat, p: nat, e: nat)
    requires
        d > 0,
        n < d * power2::pow2(p + 1 + e),
        e > 0 ==> n >= d * power2::pow2(p + e),
    ensures
        doublings(n, d, p) == e,
    decreases e,
{
    if e == 0 {
    } else {
        lemma_pow2_le(p + 1, p + e);
        assert(d * power2::pow2(p + 1) <= d * power2::pow2(p + e)) by (nonlinear_arith)
            requires
                power2::pow2(p + 1) <= power2::pow2(p + e),
        ;
        let f = (e - 1) as nat;
        power2::lemma_pow2_unfold(p + 1 + e);
        assert(d * power2::pow2(p + 1 + e) == (2 * d) * power2::pow2(p + 1 + f)) by (nonlinear_arith)
            requires
                power2::pow2(p + 1 + e) == 2 * power2::pow2(p + 1 + f),
        ;
        if f > 0 {
            power2::lemma_pow2_unfold(p + e);
            assert(d * power2::pow2(p + e) == (2 * d) * power2::pow2(p + f)) by (nonlinear_arith)
                requires
                    power2::pow2(p + e) == 2 * power2::pow2(p + f),
            ;
        }
        lemma_doublings_are(n, 2 * d, p, f);
    }
}

/// A common factor does not change a rounded quotient.
pub proof fn lemma_half_even_scales(n: nat, d: nat, c: nat)
    requires
        d > 0,
        c > 0,
    ensures
        half_even(n * c, d * c) == half_even(n, d),
{
    let q = n / d;
    let r = n % d;
    assert(n == q * d + r) by {
        vstd::arithmetic::div_mod::lemma_fundamental_div_mod(n as int, d as int);
        vstd::arithmetic::mul::lemma_mul_is_commutative(q as int, d as int);
    }
    assert(n * c == q * (d * c) + r * c) by (nonlinear_arith)
        requires
            n == q * d + r,
    ;
    assert(0 <= r * c < d * c) by (nonlinear_arith)
        requires
            0 <= r < d,
            c > 0,
    ;
    vstd::arithmetic::div_mod::lemma_fundamental_div_mod_converse(
        (n * c) as int,
        (d * c) as int,
        q as int,
        (r * c) as int,
    );
    assert((2 * r < d) == (2 * (r * c) < d * c)) by (nonlinear_arith)
        requires
            c > 0,
    ;
    assert((2 * r == d) == (2 * (r * c) == d * c)) by (nonlinear_arith)
        requires
            c > 0,
    ;
}

/// The bounds around `n / d` that the doublings promise.
pub proof fn lemma_doublings_bounds(n: nat, d: nat, p: nat)
    requires
        d > 0,
    ensures
        n < d * power2::pow2(p + 1 + doublings(n, d, p)),
        doublings(n, d, p) > 0 ==> n >= d * power2::pow2(p + doublings(n, d, p)),
    decreases n - d,
{
    let e = doublings(n, d, p);
    if n < d * power2::pow2(p + 1) {
    } else {
        power2::lemma_pow2_pos(p);
        power2::lemma_pow2_unfold(p + 1);
        assert(d * power2::pow2(p + 1) >= 2 * d) by (nonlinear_arith)
            requires
                power2::pow2(p + 1) >= 2,
                d > 0,
        ;
        lemma_doublings_bounds(n, 2 * d, p);
        let f = doublings(n, 2 * d, p);
        power2::lemma_pow2_unfold(p + 1 + e);
        assert((2 * d) * power2::pow2(p + 1 + f) == d * power2::pow2(p + 1 + e)) by (nonlinear_arith)
            requires
                power2::pow2(p + 1 + e) == 2 * power2::pow2(p + 1 + f),
        ;
        if f > 0 {
            power2::lemma_pow2_unfold(p + e);
            assert((2 * d) * power2::pow2(p + f) == d * power2::pow2(p + e)) by (nonlinear_arith)
                requires
                    power2::pow2(p + e) == 2 * power2::pow2(p + f),
            ;
        }
    }
}

/// A common factor does not move the nearest number.
pub proof fn lemma_nearest_scales(n: nat, d: nat, c: nat, p: nat, inf: nat)
    requires
        d > 0,
        c > 0,
    ensures
        nearest(n * c, d * c, p, inf) == nearest(n, d, p, inf),
{
    let e = doublings(n, d, p);
    lemma_doublings_bounds(n, d, p);
    let hi = power2::pow2(p + 1 + e);
    let lo = power2::pow2(p + e);
    assert(n * c < (d * c) * hi) by (nonlinear_arith)
        requires
            n < d * hi,
            c > 0,
    ;
    if e > 0 {
        assert(n * c >= (d * c) * lo) by (nonlinear_arith)
            requires
                n >= d * lo,
                c > 0,
        ;
    }
    assert(d * c > 0) by (nonlinear_arith)
        requires
            d > 0,
            c > 0,
    ;
    lemma_doublings_are(n * c, d * c, p, e);
    let w = power2::pow2(e);
    power2::lemma_pow2_pos(e);
    assert((d * c) * w == (d * w) * c) by (nonlinear_arith);
    assert(d * w > 0) by (nonlinear_arith)
        requires
            d > 0,
            w > 0,
    ;
    lemma_half_even_scales(n, d * w, c);
}

/// A quotient that lies on the grid is its own nearest number.
pub proof fn lemma_nearest_exact(n: nat, d: nat, q: nat, e: nat, p: nat, inf: nat)
    requires
        d > 0,
        n == q * (d * power2::pow2(e)),
        q < power2::pow2(p + 1),
        e > 0 ==> q >= power2::pow2(p),
        e * power2::pow2(p) + q < inf,
    ensures
        nearest(n, d, p, inf) == e * power2::pow2(p) + q,
{
    let w = power2::pow2(e);
    power2::lemma_pow2_pos(e);
    power2::lemma_pow2_adds(p + 1, e);
    power2::lemma_pow2_adds(p, e);
    assert(n < d * (power2::pow2(p + 1) * w)) by (nonlinear_arith)
        requires
            n == q * (d * w),
            q < power2::pow2(p + 1),
            d > 0,
            w > 0,
    ;
    if e > 0 {
        assert(n >= d * (power2::pow2(p) * w)) by (nonlinear_arith)
            requires
                n == q * (d * w),
                q >= power2::pow2(p),
                d > 0,
                w > 0,
        ;
    }
    lemma_doublings_are(n, d, p, e);
    assert(d * w > 0) by (nonlinear_arith)
        requires
            d > 0,
            w > 0,
    ;
    vstd::arithmetic::div_mod::lemma_fundamental_div_mod_converse(
        n as int,
        (d * w) as int,
        q as int,
        0,
    );
}

/// Rounding to an integer keeps the order of quotients.
pub proof fn lemma_half_even_monotonic(n1: nat, d1: nat, n2: nat, d2: nat)
    requires
        d1 > 0,
        d2 > 0,
        n1 * d2 <= n2 * d1,
    ensures
        half_even(n1, d1) <= half_even(n2, d2),
{
    let (q1, r1) = (n1 / d1, n1 % d1);
    let (q2, r2) = (n2 / d2, n2 % d2);
    vstd::arithmetic::div_mod::lemma_fundamental_div_mod(n1 as int, d1 as int);
    vstd::arithmetic::div_mod::lemma_fundamental_div_mod(n2 as int, d2 as int);
    assert(q1 <= q2) by (nonlinear_arith)
        requires
            n1 == d1 * q1 + r1,
            n2 == d2 * q2 + r2,
            0 <= r1,
            0 <= r2 < d2,
            n1 * d2 <= n2 * d1,
            d1 > 0,
            d2 > 0,
    ;
    if q1 == q2 {
        assert(r1 * d2 <= r2 * d1) by (nonlinear_arith)
            requires
                n1 == d1 * q1 + r1,
                n2 == d2 * q2 + r2,
                n1 * d2 <= n2 * d1,
                q1 == q2,
        ;
        if 2 * r1 > d1 {
            assert(2 * r2 > d2) by (nonlinear_arith)
                requires
                    r1 * d2 <= r2 * d1,
                    2 * r1 > d1,
                    d1 > 0,
                    d2 > 0,
            ;
        } else if 2 * r1 == d1 {
            assert(2 * r2 >= d2) by (nonlinear_arith)
                requires
                    r1 * d2 <= r2 * d1,
                    2 * r1 == d1,
                    d1 > 0,
                    d2 > 0,
            ;
        }
    }
}

/// A rounded quotient stays between integers that the quotient lies between.
proof fn lemma_half_even_within(n: nat, d: nat, lo: nat, hi: nat)
    requires
        d > 0,
        lo * d <= n <= hi * d,
    ensures
        lo <= half_even(n, d) <= hi,
{
    assert(n * 1 == n && 1 * n == n) by (nonlinear_arith);
    assert(lo * d == lo * d && hi * d == d * hi) by (nonlinear_arith);
    lemma_half_even_monotonic(lo, 1, n, d);
    lemma_half_even_monotonic(n, d, hi, 1);
    assert(half_even(lo, 1) == lo);
    assert(half_even(hi, 1) == hi);
}

/// Rounding keeps the order of quotients.
pub proof fn lemma_nearest_monotonic(n1: nat, d1: nat, n2: nat, d2: nat, p: nat, inf: nat)
    requires
        d1 > 0,
        d2 > 0,
        n1 * d2 <= n2 * d1,
    ensures
        nearest(n1, d1, p, inf) <= nearest(n2, d2, p, inf),
{
    let (e1, e2) = (doublings(n1, d1, p), doublings(n2, d2, p));
    let (w1, w2) = (power2::pow2(e1), power2::pow2(e2));
    let w = power2::pow2(p);
    lemma_doublings_bounds(n1, d1, p);
    lemma_doublings_bounds(n2, d2, p);
    power2::lemma_pow2_pos(e1);
    power2::lemma_pow2_pos(e2);
    power2::lemma_pow2_unfold(p + 1);
    power2::lemma_pow2_adds(p + 1, e1);
    power2::lemma_pow2_adds(p, e2);
    let (t1, t2) = (d1 * w1, d2 * w2);
    assert(t1 > 0 && t2 > 0) by (nonlinear_arith)
        requires
            t1 == d1 * w1,
            t2 == d2 * w2,
            d1 > 0,
            d2 > 0,
            w1 > 0,
            w2 > 0,
    ;
    if e1 > e2 {
        lemma_pow2_le(p + 1 + e2, p + e1);
        let (a, b) = (power2::pow2(p + e1), power2::pow2(p + 1 + e2));
        assert(false) by (nonlinear_arith)
            requires
                n1 >= d1 * a,
                n2 < d2 * b,
                b <= a,
                n1 * d2 <= n2 * d1,
                d1 > 0,
                d2 > 0,
        ;
    } else if e1 == e2 {
        assert(n1 * t2 <= n2 * t1) by (nonlinear_arith)
            requires
                n1 * d2 <= n2 * d1,
                t1 == d1 * w1,
                t2 == d2 * w2,
                w1 == w2,
                w1 > 0,
        ;
        lemma_half_even_monotonic(n1, t1, n2, t2);
    } else {
        assert(n1 <= (2 * w) * t1) by (nonlinear_arith)
            requires
                n1 < d1 * ((2 * w) * w1),
                t1 == d1 * w1,
        ;
        assert(0 * t1 == 0) by (nonlinear_arith);
        lemma_half_even_within(n1, t1, 0, 2 * w);
        assert(w * t2 <= n2) by (nonlinear_arith)
            requires
                n2 >= d2 * (w * w2),
                t2 == d2 * w2,
        ;
        assert(n2 * t2 >= n2 * 1) by (nonlinear_arith)
            requires
                t2 >= 1,
        ;
        let top = n2 + w;
        assert(n2 <= top * t2) by (nonlinear_arith)
            requires
                n2 * t2 >= n2 * 1,
                top == n2 + w,
                t2 > 0,
                w >= 0,
        ;
        lemma_half_even_within(n2, t2, w, top);
        assert(e1 * w + 2 * w <= e2 * w + w) by (nonlinear_arith)
            requires
                e1 + 1 <= e2,
                w >= 0,
        ;
    }
}

/// Rounding `num / (den * 2^s)` from the integer part `m` of `num / den`.
proof fn lemma_half_even_from_truncation(num: nat, den: nat, m: nat, s: nat)
    requires
        den > 0,
        m * den <= num < (m + 1) * den,
        s == 0 ==> m * den == num,
    ensures
        half_even(num, den * power2::pow2(s)) == ({
            let w = power2::pow2(s);
            let q = m / w;
            let r = m % w;
            if 2 * r < w || (2 * r == w && m * den == num && q % 2 == 0) {
                q
            } else {
                q + 1
            }
        }),
{
    let w = power2::pow2(s);
    power2::lemma_pow2_pos(s);
    let q = m / w;
    let r = m % w;
    let t = (num - m * den) as nat;
    vstd::arithmetic::div_mod::lemma_fundamental_div_mod(m as int, w as int);
    let rem = r * den + t;
    assert((m + 1) * den == m * den + den) by (nonlinear_arith);
    assert(num == q * (den * w) + rem) by (nonlinear_arith)
        requires
            num == m * den + t,
            m == w * q + r,
            rem == r * den + t,
    ;
    assert(0 <= rem < den * w) by (nonlinear_arith)
        requires
            rem == r * den + t,
            0 <= t < den,
            0 <= r < w,
    ;
    assert(den * w > 0) by (nonlinear_arith)
        requires
            den > 0,
            w > 0,
    ;
    vstd::arithmetic::div_mod::lemma_fundamental_div_mod_converse(
        num as int,
        (den * w) as int,
        q as int,
        rem as int,
    );
    if s > 0 {
        let h = power2::pow2((s - 1) as nat);
        power2::lemma_pow2_unfold(s);
        assert(w == 2 * h);
        if r < h {
            assert(2 * rem < den * w) by (nonlinear_arith)
                requires
                    rem == r * den + t,
                    t < den,
                    r + 1 <= h,
                    w == 2 * h,
            ;
        } else if r > h {
            assert(2 * rem > den * w) by (nonlinear_arith)
                requires
                    rem == r * den + t,
                    r >= h + 1,
                    w == 2 * h,
                    den > 0,
            ;
        } else {
            assert(2 * rem == den * w + 2 * t) by (nonlinear_arith)
                requires
                    rem == r * den + t,
                    r == h,
                    w == 2 * h,
            ;
        }
    } else {
        power2::lemma2_to64();
        assert(w == 1);
        assert(r == 0);
        assert(rem == 0);
    }
}


/// The bit length of the truncated quotient tells how often the spacing has
/// doubled.
proof fn lemma_doublings_from_bits(m: nat, ex: int, n: nat, d: nat, p: nat, e: nat, len: nat)
    requires
        d > 0,
        len > 0,
        power2::pow2((len - 1) as nat) <= m < power2::pow2(len),
        m * (d * up(ex)) <= n * up(-ex) < (m + 1) * (d * up(ex)),
        e == if len + ex > p + 1 {
            len + ex - (p + 1)
        } else {
            0
        },
    ensures
        doublings(n, d, p) == e,
{
    let num = n * up(-ex);
    let den = d * up(ex);
    let hi = power2::pow2(len);
    let lo = power2::pow2((len - 1) as nat);
    power2::lemma2_to64();
    assert(num < hi * den) by (nonlinear_arith)
        requires
            num < (m + 1) * den,
            m + 1 <= hi,
            den >= 0,
    ;
    assert(lo * den <= num) by (nonlinear_arith)
        requires
            m * den <= num,
            lo <= m,
            den >= 0,
    ;
    let top = power2::pow2(p + 1 + e);
    let bottom = power2::pow2(p + e);
    if ex >= 0 {
        assert(up(-ex) == 1);
        let w = power2::pow2(ex as nat);
        power2::lemma_pow2_adds(len, ex as nat);
        lemma_pow2_le(len + ex as nat, p + 1 + e);
        assert(n < d * top) by (nonlinear_arith)
            requires
                n < hi * (d * w),
                hi * w <= top,
        ;
        if e > 0 {
            power2::lemma_pow2_adds((len - 1) as nat, ex as nat);
            assert((len - 1) as nat + ex as nat == p + e);
            assert(n >= d * bottom) by (nonlinear_arith)
                requires
                    lo * (d * w) <= n,
                    lo * w == bottom,
            ;
        }
    } else {
        assert(up(ex) == 1);
        let w = power2::pow2(-ex as nat);
        assert(den == d) by (nonlinear_arith)
            requires
                den == d * 1,
        ;
        power2::lemma_pow2_pos(-ex as nat);
        power2::lemma_pow2_adds(p + 1 + e, -ex as nat);
        lemma_pow2_le(len, p + 1 + e + -ex as nat);
        assert(n < d * top) by (nonlinear_arith)
            requires
                n * w < hi * d,
                hi <= top * w,
                w > 0,
        ;
        if e > 0 {
            power2::lemma_pow2_adds(p + e, -ex as nat);
            assert((len - 1) as nat == p + e + -ex as nat);
            assert(n >= d * bottom) by (nonlinear_arith)
                requires
                    lo * d <= n * w,
                    lo == bottom * w,
                    w > 0,
            ;
        }
    }
    lemma_doublings_are(n, d, p, e);
}

/// Nothing is lost when the spacing at `n / d` does not reach `2^ex`.
proof fn lemma_exact_multiple(m: nat, ex: int, n: nat, d: nat, e: nat)
    requires
        d > 0,
        e <= ex,
        m * (d * up(ex)) == n * up(-ex),
    ensures
        half_even(n, d * power2::pow2(e)) == m * power2::pow2((ex - e) as nat),
{
    power2::lemma2_to64();
    let f = power2::pow2((ex - e) as nat);
    let w = power2::pow2(e);
    power2::lemma_pow2_pos(e);
    power2::lemma_pow2_adds(e, (ex - e) as nat);
    assert(up(-ex) == 1);
    assert(n == (m * f) * (d * w) + 0) by (nonlinear_arith)
        requires
            n == m * (d * (w * f)),
    ;
    assert(d * w > 0) by (nonlinear_arith)
        requires
            d > 0,
            w > 0,
    ;
    vstd::arithmetic::div_mod::lemma_fundamental_div_mod_converse(
        n as int,
        (d * w) as int,
        (m * f) as int,
        0,
    );
}

/// Rounding `n / d` at spacing `2^e` from the quotient truncated at `2^ex`.
proof fn lemma_cut_down(m: nat, ex: int, n: nat, d: nat, e: nat)
    requires
        d > 0,
        e > ex,
        m * (d * up(ex)) <= n * up(-ex) < (m + 1) * (d * up(ex)),
    ensures
        half_even(n, d * power2::pow2(e)) == ({
            let w = power2::pow2((e - ex) as nat);
            let q = m / w;
            let r = m % w;
            if 2 * r < w || (2 * r == w && m * (d * up(ex)) == n * up(-ex) && q % 2 == 0) {
                q
            } else {
                q + 1
            }
        }),
{
    power2::lemma2_to64();
    let num = n * up(-ex);
    let den = d * up(ex);
    let s = (e - ex) as nat;
    let w = power2::pow2(s);
    let c = up(-ex);
    if ex >= 0 {
        assert(c == 1);
        power2::lemma_pow2_pos(ex as nat);
        power2::lemma_pow2_adds(ex as nat, s);
        assert(den * w == d * power2::pow2(e)) by (nonlinear_arith)
            requires
                den == d * power2::pow2(ex as nat),
                power2::pow2(ex as nat) * w == power2::pow2(e),
        ;
        assert(den > 0) by (nonlinear_arith)
            requires
                den == d * power2::pow2(ex as nat),
                power2::pow2(ex as nat) > 0,
                d > 0,
        ;
    } else {
        assert(up(ex) == 1);
        power2::lemma_pow2_pos(-ex as nat);
        power2::lemma_pow2_pos(e);
        power2::lemma_pow2_adds(e, -ex as nat);
        assert(den * w == (d * power2::pow2(e)) * c) by (nonlinear_arith)
            requires
                den == d,
                w == power2::pow2(e) * c,
        ;
        assert(d * power2::pow2(e) > 0) by (nonlinear_arith)
            requires
                d > 0,
                power2::pow2(e) > 0,
        ;
        lemma_half_even_scales(n, d * power2::pow2(e), c);
    }
    lemma_half_even_from_truncation(num, den, m, s);
}

/// `2^e` as a machine integer.
pub fn power_of_two(e: u32) -> (r: u128)
    requires
        e < 128,
    ensures
        r == power2::pow2(e as nat),
{
    let mut r: u128 = 1;
    let mut i: u32 = 0;
    proof {
        power2::lemma2_to64();
    }
    while i < e
        invariant
            i <= e < 128,
            r == power2::pow2(i as nat),
        decreases e - i,
    {
        proof {
            power2::lemma_pow2_unfold((i + 1) as nat);
            lemma_pow2_le((i + 1) as nat, 127);
            lemma_pow2_127();
        }
        r = r * 2;
        i = i + 1;
    }
    r
}

pub proof fn lemma_pow2_127()
    ensures
        power2::pow2(127) == 0x8000_0000_0000_0000_0000_0000_0000_0000,
{
    power2::lemma2_to64();
    power2::lemma2_to64_rest();
    power2::lemma_pow2_adds(64, 63);
}

/// Bits needed to write `m` down: `0` for zero.
pub fn bit_length(m: u128) -> (l: u32)
    ensures
        l <= 128,
        m < power2::pow2(l as nat),
        m > 0 ==> l > 0 && power2::pow2((l - 1) as nat) <= m,
        m == 0 ==> l == 0,
{
    let mut l: u32 = 0;
    let mut rest: u128 = m;
    proof {
        power2::lemma2_to64();
        lemma_pow2_127();
    }
    while rest > 0
        invariant
            l <= 128,
            l == 128 ==> rest == 0,
            rest * power2::pow2(l as nat) <= m < (rest + 1) * power2::pow2(l as nat),
            m > 0 && rest == 0 ==> l > 0 && power2::pow2((l - 1) as nat) <= m,
            l == 0 ==> rest == m,
            m == 0 ==> l == 0,
            power2::pow2(127) == 0x8000_0000_0000_0000_0000_0000_0000_0000,
        decreases rest,
    {
        let half: u128 = rest / 2;
        proof {
            let w = power2::pow2(l as nat);
            power2::lemma_pow2_pos(l as nat);
            power2::lemma_pow2_unfold((l + 1) as nat);
            assert(half * (2 * w) <= m) by (nonlinear_arith)
                requires
                    2 * half <= rest,
                    rest * w <= m,
            ;
            assert(m < (half + 1) * (2 * w)) by (nonlinear_arith)
                requires
                    rest + 1 <= 2 * half + 2,
                    m < (rest + 1) * w,
            ;
            assert(w <= m) by (nonlinear_arith)
                requires
                    rest * w <= m,
                    rest >= 1,
            ;
            if l == 127 && half > 0 {
                assert(m >= 2 * w) by (nonlinear_arith)
                    requires
                        half * (2 * w) <= m,
                        half >= 1,
                ;
            }
        }
        rest = half;
        l = l + 1;
    }
    assert((0 + 1) * power2::pow2(l as nat) == power2::pow2(l as nat)) by (nonlinear_arith);
    l
}

/// Position on the grid nearest to `n / d`, computed from its leading bits.
///
/// `m` is `n / d` cut off below `2^ex`. When something was cut off, enough bits
/// have to be left for the halfway point to be visible.
pub(crate) fn round_bits(
    m: u128,
    ex: i32,
    inexact: bool,
    p: u32,
    inf: u64,
    Ghost(n): Ghost<nat>,
    Ghost(d): Ghost<nat>,
) -> (k: u64)
    requires
        p <= 52,
        d > 0,
        m < power2::pow2(120),
        -4000 <= ex <= 4200,
        truncates(m as nat, ex as int, inexact, n, d),
        inexact ==> m >= power2::pow2((p + 2) as nat),
    ensures
        k == nearest(n, d, p as nat, inf as nat),
{
    if m == 0 {
        proof {
            power2::lemma_pow2_pos((p + 2) as nat);
            assert(n == 0) by {
                lemma_up_adds(0, 0);
                if ex < 0 {
                    lemma_up_adds(-ex, 0);
                }
                assert(0 * (d * up(ex as int)) == 0) by (nonlinear_arith);
                assert(n == 0) by (nonlinear_arith)
                    requires
                        n * up(-ex) == 0,
                        up(-ex) > 0,
                ;
            }
            power2::lemma_pow2_pos((p + 1) as nat);
            assert(0 < d * power2::pow2((p + 1) as nat)) by (nonlinear_arith)
                requires
                    d > 0,
                    power2::pow2((p + 1) as nat) > 0,
            ;
            lemma_doublings_are(0, d, p as nat, 0);
            power2::lemma2_to64();
            assert(half_even(0, d) == 0);
        }
        return 0;
    }
    let len: u32 = bit_length(m);
    let reach: i32 = len as i32 + ex - (p as i32 + 1);
    let e: u32 = if reach > 0 {
        reach as u32
    } else {
        0
    };
    let shift: i32 = e as i32 - ex;
    let unit: u128 = power_of_two(p);
    proof {
        if len > 120 {
            lemma_pow2_le(120, (len - 1) as nat);
        }
        lemma_doublings_from_bits(m as nat, ex as int, n, d, p as nat, e as nat, len as nat);
        lemma_pow2_le(p as nat, 52);
        power2::lemma2_to64_rest();
    }
    let q: u128 = if shift <= 0 {
        proof {
            if inexact {
                lemma_pow2_le(len as nat, (p + 2) as nat);
            }
            lemma_exact_multiple(m as nat, ex as int, n, d, e as nat);
        }
        let f: u128 = power_of_two((-shift) as u32);
        proof {
            power2::lemma_pow2_pos(-shift as nat);
            power2::lemma_pow2_adds(len as nat, -shift as nat);
            lemma_pow2_le((len - shift) as nat, 53);
            power2::lemma2_to64_rest();
            assert(m * f < power2::pow2(len as nat) * f) by (nonlinear_arith)
                requires
                    m < power2::pow2(len as nat),
                    f > 0,
            ;
        }
        m * f
    } else {
        proof {
            lemma_cut_down(m as nat, ex as int, n, d, e as nat);
        }
        if shift > 120 {
            proof {
                lemma_pow2_le(120, (shift - 1) as nat);
                power2::lemma_pow2_unfold(shift as nat);
                vstd::arithmetic::div_mod::lemma_fundamental_div_mod_converse(
                    m as int,
                    power2::pow2(shift as nat) as int,
                    0,
                    m as int,
                );
            }
            0
        } else {
            let w: u128 = power_of_two(shift as u32);
            proof {
                power2::lemma_pow2_pos(shift as nat);
                power2::lemma2_to64();
                lemma_pow2_le(1, shift as nat);
                assert(m / w <= m / 2) by {
                    vstd::arithmetic::div_mod::lemma_div_is_ordered_by_denominator(
                        m as int,
                        2,
                        w as int,
                    );
                }
                power2::lemma_pow2_adds((shift) as nat, (p + 1) as nat);
                lemma_pow2_le(len as nat, (shift + p + 1) as nat);
                assert(m / w < power2::pow2((p + 1) as nat)) by {
                    vstd::arithmetic::div_mod::lemma_multiply_divide_lt(
                        m as int,
                        w as int,
                        power2::pow2((p + 1) as nat) as int,
                    );
                }
                lemma_pow2_le((p + 1) as nat, 53);
                power2::lemma2_to64_rest();
            }
            let q0: u128 = m / w;
            let r: u128 = m % w;
            if r < w - r || (r == w - r && !inexact && q0 % 2 == 0) {
                q0
            } else {
                q0 + 1
            }
        }
    };
    proof {
        assert(q == half_even(n, d * power2::pow2(e as nat)));
        assert(e * unit <= 4400 * 0x10_0000_0000_0000) by (nonlinear_arith)
            requires
                e <= 4400,
                unit <= 0x10_0000_0000_0000,
        ;
    }
    let k: u128 = e as u128 * unit + q;
    if k < inf as u128 {
        k as u64
    } else {
        inf
    }
}

} // verus!
