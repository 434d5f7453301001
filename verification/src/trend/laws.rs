//! What the slope promises: it is the least-squares slope of the segment floors,
//! and of nothing else.

use crate::float::accuracy;
use crate::float::double;
use crate::float::double::Double;
use crate::trend;
use crate::trend::{MemoryTrend, Point, Trend};
use vstd::arithmetic::power2;
use vstd::prelude::*;

verus! {

/// The slope depends on the segment floors alone: two windows that both support
/// one and have the same floors have the same slope, however many samples they
/// hold and however long they are.
pub proof fn the_floors_decide_the_slope(a: Seq<Point>, b: Seq<Point>)
    requires
        trend::slope_of(a, trend::span_of(a)) is Some,
        trend::slope_of(b, trend::span_of(b)) is Some,
        trend::floors_of(a, trend::span_of(a)) == trend::floors_of(b, trend::span_of(b)),
    ensures
        trend::slope_of(a, trend::span_of(a)) == trend::slope_of(b, trend::span_of(b)),
{
}

/// The sum of integers.
pub open spec fn summed(v: Seq<int>) -> int
    decreases v.len(),
{
    if v.len() == 0 {
        0
    } else {
        summed(v.drop_last()) + v.last()
    }
}

/// How far two series move together around `a` and `b` eighths, in
/// sixty-fourths.
pub open spec fn together(v: Seq<int>, w: Seq<int>, a: int, b: int) -> int
    decreases v.len(),
{
    if v.len() == 0 || w.len() == 0 {
        0
    } else {
        together(v.drop_last(), w.drop_last(), a, b) + (8 * v.last() - a) * (8 * w.last() - b)
    }
}

/// The same with every step counted as positive.
pub open spec fn stirred(v: Seq<int>, w: Seq<int>, a: int, b: int) -> nat
    decreases v.len(),
{
    if v.len() == 0 || w.len() == 0 {
        0
    } else {
        stirred(v.drop_last(), w.drop_last(), a, b) + double::magnitude(
            (8 * v.last() - a) * (8 * w.last() - b),
        )
    }
}

/// The times of the points, which are whole seconds below `2^50`.
pub open spec fn whole_seconds(f: Seq<Point>, t: Seq<int>) -> bool {
    &&& f.len() == t.len()
    &&& forall|i: int|
        0 <= i < t.len() ==> 0 <= #[trigger] t[i] < 0x4_0000_0000_0000 && f[i].t_secs
            == double::of_quotient(t[i] as nat, 1)
}

/// The levels of the points, which are below `2^50` bytes.
pub open spec fn whole_bytes(f: Seq<Point>, y: Seq<int>) -> bool {
    &&& f.len() == y.len()
    &&& forall|i: int|
        0 <= i < y.len() ==> 0 <= #[trigger] y[i] < 0x4_0000_0000_0000 && f[i].bytes == y[i]
}

proof fn lemma_shorter_seconds(f: Seq<Point>, t: Seq<int>)
    requires
        whole_seconds(f, t),
        f.len() > 0,
    ensures
        whole_seconds(f.drop_last(), t.drop_last()),
        accuracy::exactly(f.last().t_secs, t.last(), 0),
        0 <= t.last() < 0x4_0000_0000_0000,
{
    let (g, u) = (f.drop_last(), t.drop_last());
    assert forall|i: int| 0 <= i < u.len() implies 0 <= #[trigger] u[i] < 0x4_0000_0000_0000
        && g[i].t_secs == double::of_quotient(u[i] as nat, 1) by {
        assert(t[i] == u[i] && f[i] == g[i]);
    }
    assert(t[t.len() - 1] == t.last());
    accuracy::lemma_exact_integer(t.last() as nat);
}

proof fn lemma_shorter_bytes(f: Seq<Point>, y: Seq<int>)
    requires
        whole_bytes(f, y),
        f.len() > 0,
    ensures
        whole_bytes(f.drop_last(), y.drop_last()),
        accuracy::exactly(double::of_quotient(f.last().bytes as nat, 1), y.last(), 0),
        0 <= y.last() < 0x4_0000_0000_0000,
{
    let (g, u) = (f.drop_last(), y.drop_last());
    assert forall|i: int| 0 <= i < u.len() implies 0 <= #[trigger] u[i] < 0x4_0000_0000_0000
        && g[i].bytes == u[i] by {
        assert(y[i] == u[i] && f[i] == g[i]);
    }
    assert(y[y.len() - 1] == y.last());
    accuracy::lemma_exact_integer(y.last() as nat);
}

proof fn lemma_summed_bounds(v: Seq<int>)
    requires
        forall|i: int| 0 <= i < v.len() ==> 0 <= #[trigger] v[i] < 0x4_0000_0000_0000,
    ensures
        0 <= summed(v) <= v.len() * 0x4_0000_0000_0000,
    decreases v.len(),
{
    if v.len() > 0 {
        let w = v.drop_last();
        assert forall|i: int| 0 <= i < w.len() implies 0 <= #[trigger] w[i]
            < 0x4_0000_0000_0000 by {
            assert(v[i] == w[i]);
        }
        lemma_summed_bounds(w);
        assert(v[v.len() - 1] == v.last());
    }
}

/// The sum of the times is exact.
proof fn lemma_exact_times(f: Seq<Point>, t: Seq<int>)
    requires
        whole_seconds(f, t),
        f.len() <= 7 || summed(t) < 0x20_0000_0000_0000,
        f.len() <= 8,
    ensures
        accuracy::exactly(trend::times(f), summed(t), 0),
    decreases f.len(),
{
    if f.len() == 0 {
        double::lemma_small_integer(0);
        accuracy::lemma_exact_zero(trend::nothing(), 0);
    } else {
        lemma_shorter_seconds(f, t);
        lemma_exact_times(f.drop_last(), t.drop_last());
        lemma_summed_bounds(t.drop_last());
        accuracy::lemma_exact_sum(
            trend::times(f.drop_last()),
            f.last().t_secs,
            summed(t.drop_last()),
            t.last(),
            0,
        );
    }
}

/// The sum of the levels is exact.
proof fn lemma_exact_levels(f: Seq<Point>, y: Seq<int>)
    requires
        whole_bytes(f, y),
        f.len() <= 7 || summed(y) < 0x20_0000_0000_0000,
        f.len() <= 8,
    ensures
        accuracy::exactly(trend::levels(f), summed(y), 0),
    decreases f.len(),
{
    if f.len() == 0 {
        double::lemma_small_integer(0);
        accuracy::lemma_exact_zero(trend::nothing(), 0);
    } else {
        lemma_shorter_bytes(f, y);
        lemma_exact_levels(f.drop_last(), y.drop_last());
        lemma_summed_bounds(y.drop_last());
        accuracy::lemma_exact_sum(
            trend::levels(f.drop_last()),
            double::of_quotient(f.last().bytes as nat, 1),
            summed(y.drop_last()),
            y.last(),
            0,
        );
    }
}

/// The distance of a whole number from a mean in eighths is exact.
proof fn lemma_exact_step(x: Double, mean: Double, v: int, m: int)
    requires
        accuracy::exactly(x, v, 0),
        accuracy::exactly(mean, m, 3),
        0 <= v < 0x4_0000_0000_0000,
        0 <= m < 0x20_0000_0000_0000,
    ensures
        accuracy::exactly(double::sum(x, double::opposite(mean)), 8 * v - m, 3),
{
    power2::lemma2_to64();
    accuracy::lemma_exact_refined(x, v, 0, 3);
    accuracy::lemma_exact_opposite(mean, m, 3);
    accuracy::lemma_exact_sum(x, double::opposite(mean), v * power2::pow2(3), -m, 3);
}

proof fn lemma_together_bounds(v: Seq<int>, w: Seq<int>, a: int, b: int)
    ensures
        double::magnitude(together(v, w, a, b)) <= stirred(v, w, a, b),
    decreases v.len(),
{
    if v.len() > 0 && w.len() > 0 {
        lemma_together_bounds(v.drop_last(), w.drop_last(), a, b);
    }
}

/// How far times and levels move together is exact.
proof fn lemma_exact_covariation(
    f: Seq<Point>,
    t: Seq<int>,
    y: Seq<int>,
    mean_t: Double,
    mean_y: Double,
    a: int,
    b: int,
)
    requires
        whole_seconds(f, t),
        whole_bytes(f, y),
        accuracy::exactly(mean_t, a, 3),
        accuracy::exactly(mean_y, b, 3),
        0 <= a < 0x20_0000_0000_0000,
        0 <= b < 0x20_0000_0000_0000,
        stirred(t, y, a, b) < 0x20_0000_0000_0000,
    ensures
        accuracy::exactly(trend::covariation(f, mean_t, mean_y), together(t, y, a, b), 6),
    decreases f.len(),
{
    if f.len() == 0 {
        double::lemma_small_integer(0);
        accuracy::lemma_exact_zero(double::of_quotient(0, 1), 6);
    } else {
        lemma_shorter_seconds(f, t);
        lemma_shorter_bytes(f, y);
        let (g, u, z) = (f.drop_last(), t.drop_last(), y.drop_last());
        lemma_exact_covariation(g, u, z, mean_t, mean_y, a, b);
        let dt = double::sum(f.last().t_secs, double::opposite(mean_t));
        let dy = double::sum(
            double::of_quotient(f.last().bytes as nat, 1),
            double::opposite(mean_y),
        );
        lemma_exact_step(f.last().t_secs, mean_t, t.last(), a);
        lemma_exact_step(
            double::of_quotient(f.last().bytes as nat, 1),
            mean_y,
            y.last(),
            b,
        );
        let (p, q) = (8 * t.last() - a, 8 * y.last() - b);
        accuracy::lemma_exact_product(dt, dy, p, q, 3, 3);
        lemma_together_bounds(u, z, a, b);
        lemma_together_bounds(t, y, a, b);
        accuracy::lemma_exact_sum(
            trend::covariation(g, mean_t, mean_y),
            double::product(dt, dy),
            together(u, z, a, b),
            p * q,
            6,
        );
    }
}

/// How far the times spread is exact.
proof fn lemma_exact_variation(f: Seq<Point>, t: Seq<int>, mean_t: Double, a: int)
    requires
        whole_seconds(f, t),
        accuracy::exactly(mean_t, a, 3),
        0 <= a < 0x20_0000_0000_0000,
        stirred(t, t, a, a) < 0x20_0000_0000_0000,
    ensures
        accuracy::exactly(trend::variation(f, mean_t), together(t, t, a, a), 6),
    decreases f.len(),
{
    if f.len() == 0 {
        double::lemma_small_integer(0);
        accuracy::lemma_exact_zero(double::of_quotient(0, 1), 6);
    } else {
        lemma_shorter_seconds(f, t);
        let (g, u) = (f.drop_last(), t.drop_last());
        lemma_exact_variation(g, u, mean_t, a);
        let dt = double::sum(f.last().t_secs, double::opposite(mean_t));
        lemma_exact_step(f.last().t_secs, mean_t, t.last(), a);
        let p = 8 * t.last() - a;
        accuracy::lemma_exact_product(dt, dt, p, p, 3, 3);
        lemma_together_bounds(u, u, a, a);
        lemma_together_bounds(t, t, a, a);
        accuracy::lemma_exact_sum(
            trend::variation(g, mean_t),
            double::product(dt, dt),
            together(u, u, a, a),
            p * p,
            6,
        );
    }
}

/// The slope is the least-squares slope of the segment floors, in MiB per hour:
/// where the floors stand at whole seconds, the means of times and levels are
/// whole eighths, and the sums stay below `2^53`, the slope exists and is the exact
/// one, `n / d` bytes a second, up to five parts in `2^53`. Four or eight floors
/// have such means whatever they are.
pub proof fn the_slope_is_the_least_squares_slope(
    s: Seq<Point>,
    t: Seq<int>,
    y: Seq<int>,
    a: int,
    b: int,
)
    requires
        ({
            let f = trend::floors_of(s, trend::span_of(s));
            &&& s.len() >= 8
            &&& double::of_quotient(300, 1).below(trend::span_of(s))
            &&& f.len() >= 4
            &&& whole_seconds(f, t)
            &&& whole_bytes(f, y)
            &&& f.len() * a == 8 * summed(t)
            &&& f.len() * b == 8 * summed(y)
            &&& 0 <= a < 0x20_0000_0000_0000
            &&& 0 <= b < 0x20_0000_0000_0000
            &&& stirred(t, y, a, b) < 0x20_0000_0000_0000
            &&& stirred(t, t, a, a) < 0x20_0000_0000_0000
            &&& together(t, t, a, a) > 0
        }),
    ensures
        trend::slope_of(s, trend::span_of(s)) matches Some(x) && accuracy::near(
            x,
            3600 * together(t, y, a, b),
            1048576 * together(t, t, a, a),
            5,
        ),
{
    let span = trend::span_of(s);
    let f = trend::floors_of(s, span);
    trend::lemma_few_floors(s, trend::earliest(s), trend::width_of(span), trend::SEGMENTS as int);
    lemma_summed_bounds(t);
    lemma_summed_bounds(y);
    let n = f.len();
    assert(summed(t) < 0x20_0000_0000_0000 && summed(y) < 0x20_0000_0000_0000)
        by (nonlinear_arith)
        requires
            n * a == 8 * summed(t),
            n * b == 8 * summed(y),
            n <= 8,
            0 <= a < 0x20_0000_0000_0000,
            0 <= b < 0x20_0000_0000_0000,
    ;
    lemma_exact_times(f, t);
    lemma_exact_levels(f, y);
    accuracy::lemma_exact_eighths(trend::times(f), n, summed(t), a);
    accuracy::lemma_exact_eighths(trend::levels(f), n, summed(y), b);
    let mean_t = double::quotient(trend::times(f), double::of_quotient(n, 1));
    let mean_y = double::quotient(trend::levels(f), double::of_quotient(n, 1));
    lemma_exact_covariation(f, t, y, mean_t, mean_y, a, b);
    lemma_exact_variation(f, t, mean_t, a);
    lemma_together_bounds(t, y, a, b);
    lemma_together_bounds(t, t, a, a);
    let num = trend::covariation(f, mean_t, mean_y);
    let den = trend::variation(f, mean_t);
    accuracy::lemma_above_epsilon(
        den,
        together(t, t, a, a),
        6,
        Double { bits: trend::EPSILON },
    );
    accuracy::lemma_scaled_quotient_near(
        num,
        den,
        together(t, y, a, b),
        together(t, t, a, a),
        6,
    );
    trend::lemma_wide_segments(span);
}

/// The points lie on a line that rises `rise` bytes in `run` seconds, their times
/// one after the other.
pub open spec fn on_a_line(t: Seq<int>, y: Seq<int>, rise: int, run: int) -> bool {
    &&& run > 0
    &&& t.len() == y.len()
    &&& forall|i: int, j: int| 0 <= i < j < t.len() ==> #[trigger] t[i] < #[trigger] t[j]
    &&& forall|i: int, j: int|
        0 <= i < t.len() && 0 <= j < t.len() ==> (#[trigger] y[i] - #[trigger] y[j]) * run == (t[i]
            - t[j]) * rise
}

/// A value against the sum: as the distances to all the others add up.
proof fn lemma_line_sums(t: Seq<int>, y: Seq<int>, rise: int, run: int, c: int, d: int, n: int)
    requires
        t.len() == y.len(),
        0 <= n <= t.len(),
        forall|j: int| 0 <= j < t.len() ==> (d - #[trigger] y[j]) * run == (c - t[j]) * rise,
    ensures
        (n * d - summed(y.take(n))) * run == (n * c - summed(t.take(n))) * rise,
    decreases n,
{
    if n > 0 {
        lemma_line_sums(t, y, rise, run, c, d, n - 1);
        assert(t.take(n).drop_last() =~= t.take(n - 1));
        assert(y.take(n).drop_last() =~= y.take(n - 1));
        let (p, q) = (summed(y.take(n - 1)), summed(t.take(n - 1)));
        let (v, w) = (y[n - 1], t[n - 1]);
        assert((d - v) * run == (c - w) * rise);
        assert((n * d - (p + v)) * run == (n * c - (q + w)) * rise) by (nonlinear_arith)
            requires
                ((n - 1) * d - p) * run == ((n - 1) * c - q) * rise,
                (d - v) * run == (c - w) * rise,
        ;
    } else {
        assert((0 * d - 0) * run == (0 * c - 0) * rise) by (nonlinear_arith);
        assert(t.take(0) =~= Seq::empty());
        assert(y.take(0) =~= Seq::empty());
    }
}

/// On a line, levels stand to their sum as times do to theirs.
proof fn lemma_line_sides(t: Seq<int>, y: Seq<int>, rise: int, run: int, i: int)
    requires
        on_a_line(t, y, rise, run),
        0 <= i < t.len(),
        rise != 0,
    ensures
        ({
            let n = t.len() as int;
            let (a, b) = (n * t[i] - summed(t), n * y[i] - summed(y));
            &&& rise > 0 ==> (a < 0 <==> b < 0) && (a > 0 <==> b > 0)
            &&& rise < 0 ==> (a < 0 <==> b > 0) && (a > 0 <==> b < 0)
        }),
{
    let n = t.len() as int;
    assert forall|j: int| 0 <= j < t.len() implies (y[i] - #[trigger] y[j]) * run == (t[i] - t[j])
        * rise by {}
    lemma_line_sums(t, y, rise, run, t[i], y[i], n);
    assert(t.take(n) =~= t);
    assert(y.take(n) =~= y);
    let (a, b) = (n * t[i] - summed(t), n * y[i] - summed(y));
    assert(rise > 0 ==> (a < 0 <==> b < 0) && (a > 0 <==> b > 0)) by (nonlinear_arith)
        requires
            b * run == a * rise,
            run > 0,
    ;
    assert(rise < 0 ==> (a < 0 <==> b > 0) && (a > 0 <==> b < 0)) by (nonlinear_arith)
        requires
            b * run == a * rise,
            run > 0,
    ;
}

/// The first of several times is below their mean.
proof fn lemma_first_is_below(t: Seq<int>, n: int)
    requires
        2 <= n <= t.len(),
        forall|i: int, j: int| 0 <= i < j < t.len() ==> #[trigger] t[i] < #[trigger] t[j],
    ensures
        n * t[0] < summed(t.take(n)),
    decreases n,
{
    assert(t.take(n).drop_last() =~= t.take(n - 1));
    assert(t[0] < t[n - 1]);
    let c = t[0];
    assert(n * c == (n - 1) * c + c) by (nonlinear_arith);
    if n > 2 {
        lemma_first_is_below(t, n - 1);
    } else {
        assert(t.take(1).drop_last() =~= Seq::empty());
        assert(summed(t.take(1)) == c) by {
            assert(summed(Seq::<int>::empty()) == 0);
            assert(t.take(1).last() == c);
        }
        assert(n * c == c + c) by (nonlinear_arith)
            requires
                n == 2,
        ;
        assert(t.take(2).last() == t[1]);
    }
}

/// Where times and levels are on the same side of their means, or on opposite
/// sides, what they do together leans that way.
proof fn lemma_covariation_leans(
    f: Seq<Point>,
    t: Seq<int>,
    y: Seq<int>,
    mean_t: Double,
    mean_y: Double,
    n: int,
    st: int,
    sy: int,
    up: bool,
)
    requires
        whole_seconds(f, t),
        whole_bytes(f, y),
        f.len() <= 8,
        forall|i: int|
            0 <= i < f.len() ==> accuracy::parts(mean_t, n, st, #[trigger] t[i]) && accuracy::parts(
                mean_y,
                n,
                sy,
                y[i],
            ),
        forall|i: int|
            0 <= i < f.len() ==> {
                let (a, b) = (n * #[trigger] t[i] - st, n * y[i] - sy);
                &&& up ==> (a < 0 <==> b < 0) && (a > 0 <==> b > 0)
                &&& !up ==> (a < 0 <==> b > 0) && (a > 0 <==> b < 0)
            },
        f.len() > 0 ==> n * t[0] < st,
    ensures
        accuracy::leans(
            trend::covariation(f, mean_t, mean_y),
            up,
            if f.len() > 0 {
                power2::pow2(1068)
            } else {
                0
            },
            1182 + f.len(),
        ),
    decreases f.len(),
{
    if f.len() == 0 {
        double::lemma_small_integer(0);
        double::lemma_on_grid(0);
        power2::lemma_pow2_pos(1182);
    } else {
        lemma_shorter_seconds(f, t);
        lemma_shorter_bytes(f, y);
        let (g, u, z) = (f.drop_last(), t.drop_last(), y.drop_last());
        let k = f.len() - 1;
        assert(t[k] == t.last() && y[k] == y.last());
        assert forall|i: int| 0 <= i < g.len() implies accuracy::parts(
            mean_t,
            n,
            st,
            #[trigger] u[i],
        ) && accuracy::parts(mean_y, n, sy, z[i]) by {
            assert(t[i] == u[i] && y[i] == z[i]);
        }
        assert forall|i: int| 0 <= i < g.len() implies {
            let (a, b) = (n * #[trigger] u[i] - st, n * z[i] - sy);
            &&& up ==> (a < 0 <==> b < 0) && (a > 0 <==> b > 0)
            &&& !up ==> (a < 0 <==> b > 0) && (a > 0 <==> b < 0)
        } by {
            assert(t[i] == u[i] && y[i] == z[i]);
        }
        if g.len() > 0 {
            assert(u[0] == t[0]);
        }
        lemma_covariation_leans(g, u, z, mean_t, mean_y, n, st, sy, up);
        let dt = double::sum(f.last().t_secs, double::opposite(mean_t));
        let dy = double::sum(
            double::of_quotient(f.last().bytes as nat, 1),
            double::opposite(mean_y),
        );
        accuracy::lemma_step_leans(f.last().t_secs, mean_t, n, st, t.last());
        accuracy::lemma_step_leans(
            double::of_quotient(f.last().bytes as nat, 1),
            mean_y,
            n,
            sy,
            y.last(),
        );
        let a = n * t.last() - st;
        let side = a >= 0;
        // A time at the mean has its level there too, and leans either way.
        let other = if up {
            side
        } else {
            !side
        };
        accuracy::lemma_product_leans(dt, dy, side, other, a != 0);
        let was = trend::covariation(g, mean_t, mean_y);
        let term = double::product(dt, dy);
        let j = (1182 + g.len()) as nat;
        power2::lemma_pow2_pos(1068);
        lemma_leans_more(term, up, 0, 1182, j);
        if k == 0 {
            lemma_leans_more(term, up, power2::pow2(1068), 1182, j);
        }
        accuracy::lemma_sum_leans(was, term, up, power2::pow2(1068), j);
    }
}

/// What leans within a bound leans within a larger one.
proof fn lemma_leans_more(x: Double, up: bool, least: nat, a: nat, b: nat)
    requires
        accuracy::leans(x, up, least, a),
        a <= b,
    ensures
        accuracy::leans(x, up, least, b),
{
    if a < b {
        power2::lemma_pow2_strictly_increases(a, b);
    }
}

/// How far the times spread leans up.
proof fn lemma_variation_leans(f: Seq<Point>, t: Seq<int>, mean_t: Double, n: int, st: int)
    requires
        whole_seconds(f, t),
        f.len() <= 8,
        forall|i: int| 0 <= i < f.len() ==> accuracy::parts(mean_t, n, st, #[trigger] t[i]),
        f.len() > 0 ==> n * t[0] < st,
    ensures
        accuracy::leans(
            trend::variation(f, mean_t),
            true,
            if f.len() > 0 {
                power2::pow2(1068)
            } else {
                0
            },
            1182 + f.len(),
        ),
    decreases f.len(),
{
    if f.len() == 0 {
        double::lemma_small_integer(0);
        double::lemma_on_grid(0);
        power2::lemma_pow2_pos(1182);
    } else {
        lemma_shorter_seconds(f, t);
        let (g, u) = (f.drop_last(), t.drop_last());
        let k = f.len() - 1;
        assert(t[k] == t.last());
        assert forall|i: int| 0 <= i < g.len() implies accuracy::parts(
            mean_t,
            n,
            st,
            #[trigger] u[i],
        ) by {
            assert(t[i] == u[i]);
        }
        if g.len() > 0 {
            assert(u[0] == t[0]);
        }
        lemma_variation_leans(g, u, mean_t, n, st);
        let dt = double::sum(f.last().t_secs, double::opposite(mean_t));
        accuracy::lemma_step_leans(f.last().t_secs, mean_t, n, st, t.last());
        let a = n * t.last() - st;
        let side = a >= 0;
        accuracy::lemma_product_leans(dt, dt, side, side, a != 0);
        let was = trend::variation(g, mean_t);
        let term = double::product(dt, dt);
        let j = (1182 + g.len()) as nat;
        power2::lemma_pow2_pos(1068);
        lemma_leans_more(term, true, 0, 1182, j);
        if k == 0 {
            lemma_leans_more(term, true, power2::pow2(1068), 1182, j);
        }
        accuracy::lemma_sum_leans(was, term, true, power2::pow2(1068), j);
    }
}

/// A rising floor is a leak: where the floors lie on a rising line the slope
/// exists and is above zero, where they lie on a falling line it is below,
/// whatever their number and the number of samples in the window.
pub proof fn the_slope_follows_the_floors(
    s: Seq<Point>,
    t: Seq<int>,
    y: Seq<int>,
    rise: int,
    run: int,
)
    requires
        ({
            let f = trend::floors_of(s, trend::span_of(s));
            &&& s.len() >= 8
            &&& double::of_quotient(300, 1).below(trend::span_of(s))
            &&& f.len() >= 4
            &&& whole_seconds(f, t)
            &&& whole_bytes(f, y)
            &&& summed(t) < 0x20_0000_0000_0000
            &&& summed(y) < 0x20_0000_0000_0000
            &&& on_a_line(t, y, rise, run)
            &&& rise != 0
        }),
    ensures
        trend::slope_of(s, trend::span_of(s)) matches Some(x) && x.is_finite() && (rise > 0
            ==> x.units() > 0) && (rise < 0 ==> x.units() < 0),
{
    let span = trend::span_of(s);
    let f = trend::floors_of(s, span);
    trend::lemma_few_floors(s, trend::earliest(s), trend::width_of(span), trend::SEGMENTS as int);
    trend::lemma_wide_segments(span);
    let n = f.len();
    let (st, sy) = (summed(t), summed(y));
    lemma_summed_bounds(t);
    lemma_summed_bounds(y);
    lemma_exact_times(f, t);
    lemma_exact_levels(f, y);
    let mean_t = double::quotient(trend::times(f), double::of_quotient(n, 1));
    let mean_y = double::quotient(trend::levels(f), double::of_quotient(n, 1));
    assert forall|i: int| 0 <= i < f.len() implies accuracy::parts(
        mean_t,
        n as int,
        st,
        #[trigger] t[i],
    ) && accuracy::parts(mean_y, n as int, sy, y[i]) by {
        accuracy::lemma_mean_parts(trend::times(f), n, st, t[i]);
        accuracy::lemma_mean_parts(trend::levels(f), n, sy, y[i]);
    }
    let up = rise > 0;
    assert forall|i: int| 0 <= i < f.len() implies {
        let (a, b) = (n * #[trigger] t[i] - st, n * y[i] - sy);
        &&& up ==> (a < 0 <==> b < 0) && (a > 0 <==> b > 0)
        &&& !up ==> (a < 0 <==> b > 0) && (a > 0 <==> b < 0)
    } by {
        lemma_line_sides(t, y, rise, run, i);
    }
    lemma_first_is_below(t, n as int);
    assert(t.take(n as int) =~= t);
    lemma_covariation_leans(f, t, y, mean_t, mean_y, n as int, st, sy, up);
    lemma_variation_leans(f, t, mean_t, n as int, st);
    let num = trend::covariation(f, mean_t, mean_y);
    let den = trend::variation(f, mean_t);
    lemma_leans_more(num, up, power2::pow2(1068), (1182 + n) as nat, 1200);
    lemma_leans_more(den, true, power2::pow2(1068), (1182 + n) as nat, 1200);
    accuracy::lemma_lean_above_epsilon(den, Double { bits: trend::EPSILON }, 1200);
    accuracy::lemma_scaled_quotient_leans(num, den, up);
}

/// The readings were taken at these whole seconds, below `2^32`.
pub open spec fn taken_at(s: Seq<Point>, t: Seq<int>) -> bool {
    &&& s.len() == t.len()
    &&& forall|i: int|
        0 <= i < t.len() ==> 0 <= #[trigger] t[i] < 0x1_0000_0000 && s[i].t_secs
            == double::of_quotient(t[i] as nat, 1)
}

proof fn lemma_taken_before(s: Seq<Point>, t: Seq<int>)
    requires
        taken_at(s, t),
        s.len() > 0,
    ensures
        taken_at(s.drop_last(), t.drop_last()),
{
    let (r, u) = (s.drop_last(), t.drop_last());
    assert forall|i: int| 0 <= i < u.len() implies 0 <= #[trigger] u[i] < 0x1_0000_0000
        && r[i].t_secs == double::of_quotient(u[i] as nat, 1) by {
        assert(t[i] == u[i] && s[i] == r[i]);
    }
}

/// Whole seconds are below the largest number and above its opposite.
proof fn lemma_not_the_largest(v: nat)
    requires
        v < 0x1_0000_0000,
    ensures
        double::of_quotient(v, 1).below(Double { bits: trend::LARGEST }),
        double::opposite(Double { bits: trend::LARGEST }).below(double::of_quotient(v, 1)),
{
    double::lemma_small_integer(v);
    let big = Double { bits: trend::LARGEST };
    let x = double::of_quotient(v, 1);
    accuracy::lemma_integer_near(v as u64);
    if x.position() >= big.position() {
        accuracy::lemma_largest(v);
    }
}

/// The first and the last instant among the readings.
proof fn lemma_ends_at(s: Seq<Point>, t: Seq<int>) -> (r: (int, int))
    requires
        taken_at(s, t),
        s.len() > 0,
    ensures
        0 <= r.0 < t.len(),
        0 <= r.1 < t.len(),
        forall|i: int| 0 <= i < t.len() ==> t[r.0] <= #[trigger] t[i] <= t[r.1],
        trend::earliest(s) == double::of_quotient(t[r.0] as nat, 1),
        trend::latest(s) == double::of_quotient(t[r.1] as nat, 1),
    decreases s.len(),
{
    let k = s.len() - 1;
    let (p, u) = (s.drop_last(), t.drop_last());
    lemma_taken_before(s, t);
    assert(s[k] == s.last() && t[k] == t.last());
    assert(0 <= t[k] < 0x1_0000_0000);
    double::lemma_small_integer(t[k] as nat);
    if p.len() == 0 {
        lemma_not_the_largest(t[k] as nat);
        assert(trend::earliest(p) == Double { bits: trend::LARGEST });
        assert(trend::latest(p) == double::opposite(Double { bits: trend::LARGEST }));
        (k, k)
    } else {
        let (a, b) = lemma_ends_at(p, u);
        assert(u[a] == t[a] && u[b] == t[b]);
        assert(0 <= t[a] < 0x1_0000_0000 && 0 <= t[b] < 0x1_0000_0000);
        accuracy::lemma_integers_compare(t[k] as nat, t[a] as nat);
        accuracy::lemma_integers_compare(t[b] as nat, t[k] as nat);
        double::lemma_small_integer(t[a] as nat);
        double::lemma_small_integer(t[b] as nat);
        let r = (
            if t[k] < t[a] {
                k
            } else {
                a
            },
            if t[b] < t[k] {
                k
            } else {
                b
            },
        );
        assert forall|i: int| 0 <= i < t.len() implies t[r.0] <= #[trigger] t[i] <= t[r.1] by {
            if i < k {
                assert(u[i] == t[i]);
            }
        }
        r
    }
}

/// The window is the time that its readings cover, from the first instant among
/// them to the last, in whatever order they stand.
pub proof fn the_window_is_the_time_covered(s: Seq<Point>, t: Seq<int>) -> (r: (int, int))
    requires
        taken_at(s, t),
        s.len() > 0,
    ensures
        0 <= r.0 < t.len(),
        0 <= r.1 < t.len(),
        forall|i: int| 0 <= i < t.len() ==> t[r.0] <= #[trigger] t[i] <= t[r.1],
        accuracy::exactly(trend::span_of(s), t[r.1] - t[r.0], 0),
        trend::span_of(s).truncated() == t[r.1] - t[r.0],
        trend::earliest(s) == double::of_quotient(t[r.0] as nat, 1),
{
    let (a, b) = lemma_ends_at(s, t);
    let (x, y) = (trend::earliest(s), trend::latest(s));
    assert(t[a] <= t[b]);
    accuracy::lemma_exact_integer(t[a] as nat);
    accuracy::lemma_exact_integer(t[b] as nat);
    accuracy::lemma_exact_opposite(x, t[a], 0);
    accuracy::lemma_exact_sum(y, double::opposite(x), t[b], -t[a], 0);
    let d = double::sum(y, double::opposite(x));
    accuracy::lemma_exact_is_not_negative(d, (t[b] - t[a]) as nat, 0);
    double::lemma_small_integer(0);
    assert(trend::span_of(s) == d);
    accuracy::lemma_exact_truncated(d, (t[b] - t[a]) as nat);
    (a, b)
}

/// Which eighth of a window of `width` seconds an instant `after` seconds into it
/// falls into. Its end belongs to the last one.
pub open spec fn eighth(after: int, width: int) -> int {
    if 8 * after / width < 7 {
        8 * after / width
    } else {
        7
    }
}

/// The window is split into eight equal parts.
proof fn lemma_segments_are_eighths(x: Double, t0: Double, span: Double, v: int, a: int, width: int)
    requires
        x == double::of_quotient(v as nat, 1),
        t0 == double::of_quotient(a as nat, 1),
        accuracy::exactly(span, width, 0),
        0 <= a <= v <= a + width,
        a + width < 0x1_0000_0000,
        0 < width,
    ensures
        trend::segment(x, t0, trend::width_of(span)) == eighth(v - a, width),
{
    accuracy::lemma_exact_integer(v as nat);
    accuracy::lemma_exact_integer(a as nat);
    accuracy::lemma_exact_opposite(t0, a, 0);
    accuracy::lemma_exact_sum(x, double::opposite(t0), v, -a, 0);
    accuracy::lemma_exact_eighths(span, 8, width, width);
    let d = double::sum(x, double::opposite(t0));
    accuracy::lemma_parts_are_cut(d, trend::width_of(span), (v - a) as nat, width as nat);
}

/// Reading `k` is the lowest of its eighth of the window from `a` on.
pub open spec fn lowest_of_its_eighth(
    s: Seq<Point>,
    t: Seq<int>,
    a: int,
    width: int,
    k: int,
) -> bool {
    &&& 0 <= k < s.len()
    &&& forall|i: int|
        0 <= i < s.len() && eighth(#[trigger] t[i] - a, width) == eighth(t[k] - a, width)
            ==> s[k].bytes <= s[i].bytes
}

/// The segments of a window at whole seconds.
proof fn lemma_window_in_eighths(s: Seq<Point>, t: Seq<int>, a: int, b: int)
    requires
        taken_at(s, t),
        0 <= a < t.len(),
        0 <= b < t.len(),
        forall|i: int| 0 <= i < t.len() ==> t[a] <= #[trigger] t[i] <= t[b],
        t[a] < t[b],
    ensures
        forall|i: int|
            0 <= i < s.len() ==> #[trigger] segment_of(
                s,
                trend::earliest(s),
                trend::width_of(trend::span_of(s)),
                i,
            ) == eighth(t[i] - t[a], t[b] - t[a]),
        forall|i: int| 0 <= i < s.len() ==> 0 <= eighth(#[trigger] t[i] - t[a], t[b] - t[a]) < 8,
{
    let span = trend::span_of(s);
    let (c, d) = the_window_is_the_time_covered(s, t);
    assert(t[c] <= t[a] && t[a] <= t[c] && t[d] <= t[b] && t[b] <= t[d]);
    let width = t[b] - t[a];
    assert forall|i: int| 0 <= i < s.len() implies #[trigger] segment_of(
        s,
        trend::earliest(s),
        trend::width_of(span),
        i,
    ) == eighth(t[i] - t[a], width) by {
        assert(t[a] <= t[i] <= t[b]);
        lemma_segments_are_eighths(
            s[i].t_secs,
            trend::earliest(s),
            span,
            t[i],
            t[a],
            width,
        );
    }
    assert forall|i: int| 0 <= i < s.len() implies 0 <= eighth(#[trigger] t[i] - t[a], width)
        < 8 by {
        let x = t[i] - t[a];
        assert(8 * x / width >= 0) by (nonlinear_arith)
            requires
                x >= 0,
                width > 0,
        ;
    }
}

proof fn lemma_bottom_is_lowest(s: Seq<Point>, t: Seq<int>, a: int, b: int, k: int)
    requires
        taken_at(s, t),
        0 <= a < t.len(),
        0 <= b < t.len(),
        forall|i: int| 0 <= i < t.len() ==> t[a] <= #[trigger] t[i] <= t[b],
        t[a] < t[b],
        trend::bottoms(s, trend::earliest(s), trend::width_of(trend::span_of(s)), k),
    ensures
        lowest_of_its_eighth(s, t, t[a], t[b] - t[a], k),
{
    let (t0, w) = (trend::earliest(s), trend::width_of(trend::span_of(s)));
    let width = t[b] - t[a];
    lemma_window_in_eighths(s, t, a, b);
    assert forall|i: int|
        0 <= i < s.len() && eighth(#[trigger] t[i] - t[a], width) == eighth(
            t[k] - t[a],
            width,
        ) implies s[k].bytes <= s[i].bytes by {
        assert(segment_of(s, t0, w, i) == segment_of(s, t0, w, k));
        assert(trend::segment(s[i].t_secs, t0, w) == trend::segment(s[k].t_secs, t0, w));
    }
}

/// Every eighth of the window that has a reading has its lowest among the floors:
/// for each reading `i` there is one, `k`.
pub proof fn every_eighth_has_its_lowest_among_the_floors(
    s: Seq<Point>,
    t: Seq<int>,
    a: int,
    b: int,
    i: int,
) -> (k: int)
    requires
        taken_at(s, t),
        0 <= a < t.len(),
        0 <= b < t.len(),
        forall|i: int| 0 <= i < t.len() ==> t[a] <= #[trigger] t[i] <= t[b],
        t[a] < t[b],
        0 <= i < s.len(),
    ensures
        lowest_of_its_eighth(s, t, t[a], t[b] - t[a], k),
        eighth(t[k] - t[a], t[b] - t[a]) == eighth(t[i] - t[a], t[b] - t[a]),
        trend::floors_of(s, trend::span_of(s)).contains(s[k]),
{
    let (t0, w) = (trend::earliest(s), trend::width_of(trend::span_of(s)));
    lemma_window_in_eighths(s, t, a, b);
    let e = segment_of(s, t0, w, i);
    let width = t[b] - t[a];
    assert(0 <= eighth(t[i] - t[a], width) < 8);
    let k = lemma_segment_floor(s, t0, w, 8, i);
    lemma_bottom_is_lowest(s, t, a, b, k);
    assert(segment_of(s, t0, w, k) == e);
    k
}

/// Every floor is a reading, the lowest of its eighth of the window.
pub proof fn every_floor_is_the_lowest_of_its_eighth(
    s: Seq<Point>,
    t: Seq<int>,
    a: int,
    b: int,
    j: int,
) -> (k: int)
    requires
        taken_at(s, t),
        0 <= a < t.len(),
        0 <= b < t.len(),
        forall|i: int| 0 <= i < t.len() ==> t[a] <= #[trigger] t[i] <= t[b],
        t[a] < t[b],
        0 <= j < trend::floors_of(s, trend::span_of(s)).len(),
    ensures
        lowest_of_its_eighth(s, t, t[a], t[b] - t[a], k),
        trend::floors_of(s, trend::span_of(s))[j] == s[k],
        trend::floors_of(s, trend::span_of(s)).len() <= 8,
{
    let (t0, w) = (trend::earliest(s), trend::width_of(trend::span_of(s)));
    trend::lemma_few_floors(s, t0, w, 8);
    let k = lemma_floor_segment(s, t0, w, 8, j);
    lemma_bottom_is_lowest(s, t, a, b, k);
    k
}

/// The floors come in the order of the eighths, one for each.
pub proof fn the_floors_come_in_order(s: Seq<Point>, t: Seq<int>, a: int, b: int, i: int, j: int)
    requires
        taken_at(s, t),
        0 <= a < t.len(),
        0 <= b < t.len(),
        forall|i: int| 0 <= i < t.len() ==> t[a] <= #[trigger] t[i] <= t[b],
        t[a] < t[b],
        0 <= i < j < trend::floors_of(s, trend::span_of(s)).len(),
    ensures
        exists|k: int, m: int|
            0 <= k < s.len() && 0 <= m < s.len() && #[trigger] s[k] == trend::floors_of(
                s,
                trend::span_of(s),
            )[i] && #[trigger] s[m] == trend::floors_of(s, trend::span_of(s))[j] && eighth(
                t[k] - t[a],
                t[b] - t[a],
            ) < eighth(t[m] - t[a], t[b] - t[a]),
{
    let (t0, w) = (trend::earliest(s), trend::width_of(trend::span_of(s)));
    lemma_window_in_eighths(s, t, a, b);
    let k = lemma_floor_segment(s, t0, w, 8, i);
    let m = lemma_floor_segment(s, t0, w, 8, j);
    lemma_floors_climb(s, t0, w, 8, i, j);
    assert(segment_of(s, t0, w, k) < segment_of(s, t0, w, m));
    let f = trend::floors_of(s, trend::span_of(s));
    assert(s[k] == f[i] && s[m] == f[j]);
}

/// The segment of a reading.
spec fn segment_of(s: Seq<Point>, t0: Double, w: Double, i: int) -> int {
    trend::segment(s[i].t_secs, t0, w)
}

/// A segment with a reading has its lowest among the floors.
proof fn lemma_segment_floor(s: Seq<Point>, t0: Double, w: Double, n: int, i: int) -> (k: int)
    requires
        0 <= i < s.len(),
        0 <= segment_of(s, t0, w, i) < n,
    ensures
        trend::bottoms(s, t0, w, k),
        segment_of(s, t0, w, k) == segment_of(s, t0, w, i),
        trend::floors_before(s, t0, w, n).contains(s[k]),
    decreases n,
{
    let (g, f) = (trend::floors_before(s, t0, w, n - 1), trend::floors_before(s, t0, w, n));
    if segment_of(s, t0, w, i) < n - 1 {
        let k = lemma_segment_floor(s, t0, w, n - 1, i);
        let j = choose|j: int| 0 <= j < g.len() && g[j] == s[k];
        assert(f[j] == s[k]);
        k
    } else {
        trend::lemma_lowest_bottoms(s, t0, w, n - 1);
        assert(trend::segment(s[i].t_secs, t0, w) == n - 1);
        let p = trend::lowest(s, t0, w, n - 1)->0;
        let k = choose|k: int| #[trigger]
            trend::bottoms(s, t0, w, k) && s[k] == p && trend::segment(p.t_secs, t0, w) == n - 1;
        assert(f[g.len() as int] == s[k]);
        k
    }
}

/// A floor is the lowest reading of a segment.
proof fn lemma_floor_segment(s: Seq<Point>, t0: Double, w: Double, n: int, j: int) -> (k: int)
    requires
        0 <= j < trend::floors_before(s, t0, w, n).len(),
    ensures
        trend::bottoms(s, t0, w, k),
        trend::floors_before(s, t0, w, n)[j] == s[k],
        segment_of(s, t0, w, k) < n,
    decreases n,
{
    let (g, f) = (trend::floors_before(s, t0, w, n - 1), trend::floors_before(s, t0, w, n));
    if j < g.len() {
        let k = lemma_floor_segment(s, t0, w, n - 1, j);
        assert(f[j] == g[j]);
        k
    } else {
        trend::lemma_lowest_bottoms(s, t0, w, n - 1);
        let p = trend::lowest(s, t0, w, n - 1)->0;
        let k = choose|k: int| #[trigger]
            trend::bottoms(s, t0, w, k) && s[k] == p && trend::segment(p.t_secs, t0, w) == n - 1;
        assert(f[j] == s[k]);
        k
    }
}

/// Floors stand in the order of their segments.
proof fn lemma_floors_climb(s: Seq<Point>, t0: Double, w: Double, n: int, i: int, j: int)
    requires
        0 <= i < j < trend::floors_before(s, t0, w, n).len(),
    ensures
        ({
            let f = trend::floors_before(s, t0, w, n);
            trend::segment(f[i].t_secs, t0, w) < trend::segment(f[j].t_secs, t0, w)
        }),
    decreases n,
{
    let (g, f) = (trend::floors_before(s, t0, w, n - 1), trend::floors_before(s, t0, w, n));
    assert(f[i] == g[i]);
    if j < g.len() {
        assert(f[j] == g[j]);
        lemma_floors_climb(s, t0, w, n - 1, i, j);
    } else {
        trend::lemma_lowest_bottoms(s, t0, w, n - 1);
        let k = lemma_floor_segment(s, t0, w, n - 1, i);
        assert(trend::segment(f[j].t_secs, t0, w) == n - 1);
        assert(segment_of(s, t0, w, k) < n - 1);
    }
}

/// The floor of a window is its lowest level, its peak the highest, and both are
/// levels that were read.
pub proof fn floor_and_peak_are_readings(s: Seq<Point>, r: MemoryTrend)
    requires
        trend::describes(s, r),
    ensures
        r.samples == s.len(),
        forall|i: int| 0 <= i < s.len() ==> r.floor <= (#[trigger] s[i]).bytes <= r.peak,
        exists|i: int| 0 <= i < s.len() && (#[trigger] s[i]).bytes == r.floor,
        exists|i: int| 0 <= i < s.len() && (#[trigger] s[i]).bytes == r.peak,
{
    let i = choose|i: int| 0 <= i < s.len() && #[trigger] s[i].bytes == r.floor;
    let j = choose|j: int| 0 <= j < s.len() && #[trigger] s[j].bytes == r.peak;
    assert(s[i].bytes == r.floor && s[j].bytes == r.peak);
    assert forall|i: int| 0 <= i < s.len() implies r.floor <= (#[trigger] s[i]).bytes <= r.peak by {
        assert(s[i].bytes >= r.floor);
    }
}

/// The newest readings of a history are its last ones, as many as the ring holds.
pub proof fn the_newest_are_the_last(history: Seq<Point>, i: int)
    requires
        0 <= i < trend::newest(history).len(),
    ensures
        trend::newest(history).len() == if history.len() < 512 {
            history.len()
        } else {
            512
        },
        trend::newest(history)[i] == history[history.len() - trend::newest(history).len() + i],
{
}

/// What the ring keeps of a history are its newest readings, oldest first.
pub proof fn the_ring_keeps_the_newest(series: Trend, history: Seq<Point>)
    requires
        series.keeps(history),
    ensures
        series.window() == trend::newest(history),
        series.next <= series.ring@.len() ==> series.window().len() == series.ring@.len(),
{
}

} // verus!
