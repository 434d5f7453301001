//! Text as sequences of characters: comparison, and numbers written out.

use crate::float::accuracy;
use crate::float::double::Double;
use crate::float::grid;
use crate::float::rounding;
use vstd::arithmetic::power2;
use vstd::prelude::*;
use vstd::string::StringExecFns;

verus! {

/// The characters of a text.
pub fn letters(s: &str) -> (r: Vec<char>)
    ensures
        r@ == s@,
{
    let mut r: Vec<char> = Vec::new();
    for c in it: s.chars()
        invariant
            it.seq() == s@,
            r@ == s@.take(it.index() as int),
    {
        r.push(c);
    }
    r
}

/// Whether two texts hold the same characters.
pub fn same(a: &str, b: &str) -> (r: bool)
    ensures
        r == (a@ == b@),
{
    let x: &[u8] = a.as_bytes();
    let y: &[u8] = b.as_bytes();
    proof {
        vstd::utf8::encode_utf8_decode_utf8(a@);
        vstd::utf8::encode_utf8_decode_utf8(b@);
    }
    if x.len() != y.len() {
        return false;
    }
    let mut i: usize = 0;
    while i < x.len()
        invariant
            i <= x@.len(),
            x@.len() == y@.len(),
            x@ == vstd::utf8::encode_utf8(a@),
            y@ == vstd::utf8::encode_utf8(b@),
            forall|j: int| 0 <= j < i ==> x@[j] == y@[j],
        decreases x@.len() - i,
    {
        if x[i] != y[i] {
            return false;
        }
        i = i + 1;
    }
    assert(x@ =~= y@);
    true
}

/// Whether `a` comes before `b` in the order of code points, character by
/// character, a prefix before what it starts.
pub open spec fn before(a: Seq<char>, b: Seq<char>) -> bool
    decreases a.len(),
{
    if b.len() == 0 {
        false
    } else if a.len() == 0 {
        true
    } else if a[0] != b[0] {
        (a[0] as int) < (b[0] as int)
    } else {
        before(a.drop_first(), b.drop_first())
    }
}

/// Two texts differ first at `i`: what stands there decides their order.
proof fn lemma_before_at(a: Seq<char>, b: Seq<char>, i: int)
    requires
        0 <= i <= a.len(),
        i <= b.len(),
        a.take(i) =~= b.take(i),
        i < a.len() && i < b.len() ==> a[i] != b[i],
    ensures
        before(a, b) == if i == b.len() {
            false
        } else if i == a.len() {
            true
        } else {
            (a[i] as int) < (b[i] as int)
        },
    decreases i,
{
    if i > 0 {
        assert(a[0] == a.take(i)[0] && b[0] == b.take(i)[0]);
        let (x, y) = (a.drop_first(), b.drop_first());
        assert(x.take(i - 1) =~= a.take(i).drop_first());
        assert(y.take(i - 1) =~= b.take(i).drop_first());
        lemma_before_at(x, y, i - 1);
    }
}

/// The order of texts is strict.
pub proof fn lemma_before_asymmetric(a: Seq<char>, b: Seq<char>)
    ensures
        !(before(a, b) && before(b, a)),
    decreases a.len(),
{
    if a.len() > 0 && b.len() > 0 && a[0] == b[0] {
        lemma_before_asymmetric(a.drop_first(), b.drop_first());
    }
}

/// The order of texts is total.
pub proof fn lemma_before_total(a: Seq<char>, b: Seq<char>)
    ensures
        a == b || before(a, b) || before(b, a),
    decreases a.len(),
{
    if a.len() > 0 && b.len() > 0 && a[0] == b[0] {
        lemma_before_total(a.drop_first(), b.drop_first());
        if a.drop_first() == b.drop_first() {
            assert(a =~= seq![a[0]] + a.drop_first());
            assert(b =~= seq![b[0]] + b.drop_first());
        }
    } else if a.len() == 0 && b.len() == 0 {
        assert(a =~= b);
    }
}

/// The order of texts is transitive.
pub proof fn lemma_before_transitive(a: Seq<char>, b: Seq<char>, c: Seq<char>)
    requires
        before(a, b),
        before(b, c),
    ensures
        before(a, c),
    decreases a.len(),
{
    if a.len() > 0 && a[0] == b[0] && b[0] == c[0] {
        lemma_before_transitive(a.drop_first(), b.drop_first(), c.drop_first());
    }
}

/// The code point of a character.
pub fn code_point(c: char) -> (r: u32)
    ensures
        r == c as int,
{
    c as u32
}

/// Whether `a` comes before `b`.
pub fn comes_before(a: &str, b: &str) -> (r: bool)
    ensures
        r == before(a@, b@),
{
    let x: Vec<char> = letters(a);
    let y: Vec<char> = letters(b);
    let mut i: usize = 0;
    while i < x.len() && i < y.len() && x[i] == y[i]
        invariant
            i <= x@.len(),
            i <= y@.len(),
            x@.take(i as int) =~= y@.take(i as int),
        decreases x@.len() - i,
    {
        assert(x@.take(i + 1) =~= x@.take(i as int).push(x@[i as int]));
        assert(y@.take(i + 1) =~= y@.take(i as int).push(y@[i as int]));
        i = i + 1;
    }
    proof {
        lemma_before_at(x@, y@, i as int);
    }
    if i == y.len() {
        false
    } else if i == x.len() {
        true
    } else {
        code_point(x[i]) < code_point(y[i])
    }
}

/// The character of a decimal digit.
pub open spec fn digit(d: nat) -> char {
    (48 + d) as char
}

/// An integer in decimal, without leading zeros.
pub open spec fn decimal(v: nat) -> Seq<char>
    decreases v,
{
    if v < 10 {
        seq![digit(v)]
    } else {
        decimal(v / 10).push(digit(v % 10))
    }
}

/// The text of one digit.
fn digit_text(d: u64) -> (r: &'static str)
    requires
        d < 10,
    ensures
        r@ == seq![digit(d as nat)],
{
    proof {
        reveal_strlit("0");
        reveal_strlit("1");
        reveal_strlit("2");
        reveal_strlit("3");
        reveal_strlit("4");
        reveal_strlit("5");
        reveal_strlit("6");
        reveal_strlit("7");
        reveal_strlit("8");
        reveal_strlit("9");
    }
    match d {
        0 => "0",
        1 => "1",
        2 => "2",
        3 => "3",
        4 => "4",
        5 => "5",
        6 => "6",
        7 => "7",
        8 => "8",
        _ => "9",
    }
}

/// Appends an integer in decimal.
pub fn push_u64(out: &mut String, v: u64)
    ensures
        final(out)@ == old(out)@ + decimal(v as nat),
    decreases v,
{
    if v >= 10 {
        push_u64(out, v / 10);
    }
    out.append(digit_text(v % 10));
    assert(out@ =~= old(out)@ + decimal(v as nat));
}

/// The value of decimal digits, the least significant first.
spec fn worth(s: Seq<u8>) -> nat
    decreases s.len(),
{
    if s.len() == 0 {
        0
    } else {
        s[0] as nat + 10 * worth(s.drop_first())
    }
}

/// Decimal digits, the least significant first, of a positive number.
spec fn digits(s: Seq<u8>) -> bool {
    &&& forall|i: int| 0 <= i < s.len() ==> #[trigger] s[i] < 10
    &&& s.len() > 0
    &&& s.last() > 0
}

proof fn lemma_worth_positive(s: Seq<u8>)
    requires
        digits(s),
    ensures
        worth(s) > 0,
    decreases s.len(),
{
    if s.len() > 1 {
        let t = s.drop_first();
        assert forall|i: int| 0 <= i < t.len() implies #[trigger] t[i] < 10 by {
            assert(t[i] == s[i + 1]);
        }
        lemma_worth_positive(t);
    }
}

/// What the digits are worth with a further, most significant one.
proof fn lemma_worth_push(s: Seq<u8>, d: u8)
    ensures
        worth(s.push(d)) == worth(s) + d * vstd::arithmetic::power::pow(10, s.len()),
    decreases s.len(),
{
    vstd::arithmetic::power::lemma_pow0(10);
    if s.len() == 0 {
        assert(s.push(d).drop_first() =~= s);
    } else {
        let t = s.drop_first();
        assert(s.push(d).drop_first() =~= t.push(d));
        lemma_worth_push(t, d);
        reveal(vstd::arithmetic::power::pow);
        let p = vstd::arithmetic::power::pow(10, t.len());
        assert(vstd::arithmetic::power::pow(10, s.len()) == 10 * p);
        assert(d * (10 * p) == 10 * (d * p)) by (nonlinear_arith);
    }
}

/// Appends digits from the most significant down.
fn push_digits(out: &mut String, s: &Vec<u8>)
    requires
        digits(s@),
    ensures
        final(out)@ == old(out)@ + decimal(worth(s@)),
{
    let n: usize = s.len();
    let mut i: usize = n;
    assert(s@.skip(0) =~= s@);
    while i > 0
        invariant
            i <= n,
            n == s@.len(),
            digits(s@),
            i < n ==> out@ == old(out)@ + decimal(worth(s@.skip(i as int))),
            i == n ==> out@ == old(out)@,
        decreases i,
    {
        let ghost rest = s@.skip(i as int);
        i = i - 1;
        let d: u8 = s[i];
        out.append(digit_text(d as u64));
        proof {
            let all = s@.skip(i as int);
            assert(all.drop_first() =~= rest);
            let v = worth(rest);
            assert(worth(all) == d + 10 * v);
            if i + 1 < n {
                assert forall|j: int| 0 <= j < rest.len() implies #[trigger] rest[j] < 10 by {
                    assert(rest[j] == s@[i + 1 + j]);
                }
                lemma_worth_positive(rest);
                assert(worth(all) / 10 == v && worth(all) % 10 == d);
                assert(out@ =~= old(out)@ + decimal(worth(all)));
            } else {
                assert(rest.len() == 0);
                assert(out@ =~= old(out)@ + decimal(worth(all)));
            }
        }
    }
}

/// Decimal digits of an integer, the least significant first.
fn digits_of(v: u64) -> (r: Vec<u8>)
    requires
        v > 0,
    ensures
        digits(r@),
        worth(r@) == v,
{
    let mut r: Vec<u8> = Vec::new();
    let mut left: u64 = v;
    let ghost mut p: int = 1;
    proof {
        vstd::arithmetic::power::lemma_pow0(10);
    }
    while left > 0
        invariant
            forall|i: int| 0 <= i < r@.len() ==> #[trigger] r@[i] < 10,
            v > 0,
            p == vstd::arithmetic::power::pow(10, r@.len()),
            v == worth(r@) + left * p,
            left == 0 ==> digits(r@),
        decreases left,
    {
        let d: u8 = (left % 10) as u8;
        let ghost was = r@;
        r.push(d);
        proof {
            lemma_worth_push(was, d);
            reveal(vstd::arithmetic::power::pow);
            let q = (left / 10) as int;
            assert(left * p == d * p + q * (10 * p)) by (nonlinear_arith)
                requires
                    left == 10 * q + d,
            ;
            p = 10 * p;
        }
        left = left / 10;
    }
    assert(0 * p == 0) by (nonlinear_arith);
    r
}

/// Doubles the number that the digits stand for.
fn double_digits(s: &Vec<u8>) -> (r: Vec<u8>)
    requires
        digits(s@),
    ensures
        digits(r@),
        worth(r@) == 2 * worth(s@),
{
    let mut r: Vec<u8> = Vec::new();
    let mut carry: u8 = 0;
    let mut i: usize = 0;
    let ghost mut p: int = 1;
    proof {
        vstd::arithmetic::power::lemma_pow0(10);
        assert(s@.take(0) =~= Seq::<u8>::empty());
    }
    while i < s.len()
        invariant
            digits(s@),
            i <= s@.len(),
            r@.len() == i,
            carry <= 1,
            p == vstd::arithmetic::power::pow(10, i as nat),
            forall|j: int| 0 <= j < i ==> #[trigger] r@[j] < 10,
            worth(r@) + carry * p == 2 * worth(s@.take(i as int)),
            i > 0 && carry == 0 && s@[i - 1] > 0 ==> r@[i - 1] > 0,
        decreases s@.len() - i,
    {
        let v: u8 = 2 * s[i] + carry;
        let d: u8 = if v < 10 {
            v
        } else {
            v - 10
        };
        let up: u8 = if v < 10 {
            0
        } else {
            1
        };
        let ghost was = r@;
        r.push(d);
        proof {
            lemma_worth_push(was, d);
            let t = s@.take(i as int);
            assert(s@.take(i + 1) =~= t.push(s@[i as int]));
            lemma_worth_push(t, s@[i as int]);
            reveal(vstd::arithmetic::power::pow);
            let x = s@[i as int];
            assert(d * p + up * (10 * p) == 2 * (x * p) + carry * p) by (nonlinear_arith)
                requires
                    d + 10 * up == 2 * x + carry,
            ;
            p = 10 * p;
        }
        carry = up;
        i = i + 1;
    }
    assert(s@.take(s@.len() as int) =~= s@);
    if carry > 0 {
        let ghost was = r@;
        r.push(carry);
        proof {
            lemma_worth_push(was, carry);
        }
    } else {
        assert(0 * p == 0) by (nonlinear_arith);
    }
    r
}

/// A number of `1 / d` steps, `n` units of `2^-1074` being rounded to the
/// nearest step with ties to even.
pub open spec fn steps(x: Double, d: nat) -> nat {
    rounding::half_even(
        grid::number_at(x.position(), 52) * d,
        power2::pow2(crate::float::double::UNIT as nat),
    )
}

/// The sign that a number is written with.
pub open spec fn sign_of(x: Double, always: bool) -> Seq<char> {
    if x.negative() {
        "-"@
    } else if always {
        "+"@
    } else {
        Seq::empty()
    }
}

/// A number with one decimal place, rounded to nearest with ties to even.
///
/// `always` puts a sign in front of positive numbers as well.
pub open spec fn one_place(x: Double, always: bool) -> Seq<char> {
    if x.is_nan() {
        "NaN"@
    } else if x.is_infinite() {
        sign_of(x, always) + "inf"@
    } else {
        let t = steps(x, 10);
        sign_of(x, always) + decimal(t / 10) + "."@ + decimal(t % 10)
    }
}

/// A number without decimal places, rounded to nearest with ties to even.
pub open spec fn no_place(x: Double) -> Seq<char> {
    if x.is_nan() {
        "NaN"@
    } else if x.is_infinite() {
        sign_of(x, false) + "inf"@
    } else {
        sign_of(x, false) + decimal(steps(x, 1))
    }
}

/// How a finite number is to be written: an integer with digits of its own, or
/// steps that fit a machine integer.
enum Rounded {
    /// A positive whole number.
    Whole(Vec<u8>),
    /// So many steps.
    Steps(u64),
}

/// `n * 2^e / 2^1074` for a significand and its exponent.
proof fn lemma_steps(m: nat, e: nat, d: nat)
    ensures
        e >= 1074 ==> rounding::half_even((m * power2::pow2(e)) * d, power2::pow2(1074)) == (m * d)
            * power2::pow2((e - 1074) as nat),
        e < 1074 ==> rounding::half_even((m * power2::pow2(e)) * d, power2::pow2(1074))
            == rounding::half_even(m * d, power2::pow2((1074 - e) as nat)),
{
    power2::lemma_pow2_pos(e);
    power2::lemma_pow2_pos(1074);
    if e >= 1074 {
        let k = (e - 1074) as nat;
        power2::lemma_pow2_adds(1074, k);
        let (w, u) = (power2::pow2(k), power2::pow2(1074));
        let n = (m * d) * w;
        assert((m * power2::pow2(e)) * d == n * u) by (nonlinear_arith)
            requires
                power2::pow2(e) == u * w,
                n == (m * d) * w,
        ;
        assert(1 * u == u) by (nonlinear_arith);
        rounding::lemma_half_even_scales(n, 1, u);
    } else {
        let k = (1074 - e) as nat;
        power2::lemma_pow2_adds(k, e);
        power2::lemma_pow2_pos(k);
        let (w, c) = (power2::pow2(k), power2::pow2(e));
        assert((m * c) * d == (m * d) * c) by (nonlinear_arith);
        rounding::lemma_half_even_scales(m * d, w, c);
    }
}

/// Rounds a finite number to `1 / d` steps.
fn round_steps(x: Double, d: u64) -> (r: Rounded)
    requires
        x.is_finite(),
        1 <= d <= 10,
    ensures
        match r {
            Rounded::Whole(s) => digits(s@) && steps(x, d as nat) == worth(s@) * d,
            Rounded::Steps(n) => n == steps(x, d as nat),
        },
{
    let k: u64 = x.place();
    proof {
        crate::float::double::lemma_on_grid(k as nat);
        power2::lemma2_to64_rest();
    }
    let (m, e) = grid::decode(k, 52);
    let ghost g = m as nat;
    proof {
        lemma_steps(m as nat, e as nat, d as nat);
    }
    if m == 0 {
        proof {
            assert(0 * power2::pow2(e as nat) == 0) by (nonlinear_arith);
            assert(0 * d == 0) by (nonlinear_arith);
            power2::lemma_pow2_pos(1074);
            vstd::arithmetic::div_mod::lemma_basic_div(0, power2::pow2(1074) as int);
            vstd::arithmetic::div_mod::lemma_small_mod(0, power2::pow2(1074));
        }
        return Rounded::Steps(0);
    }
    if e >= 1074 {
        let mut s: Vec<u8> = digits_of(m as u64);
        let mut j: u32 = 1074;
        proof {
            power2::lemma2_to64();
            assert(g * 1 == g) by (nonlinear_arith);
        }
        while j < e
            invariant
                1074 <= j <= e,
                digits(s@),
                worth(s@) == g * power2::pow2((j - 1074) as nat),
            decreases e - j,
        {
            s = double_digits(&s);
            proof {
                power2::lemma_pow2_unfold((j + 1 - 1074) as nat);
                let w = power2::pow2((j - 1074) as nat);
                assert(2 * (g * w) == g * (2 * w)) by (nonlinear_arith);
            }
            j = j + 1;
        }
        proof {
            let w = power2::pow2((e - 1074) as nat);
            assert((g * d) * w == (g * w) * d) by (nonlinear_arith);
        }
        return Rounded::Whole(s);
    }
    let down: u32 = 1074 - e;
    assert(m * d <= m * 10) by (nonlinear_arith)
        requires
            d <= 10,
    ;
    let n: u64 = m as u64 * d;
    if down >= 60 {
        proof {
            rounding::lemma_pow2_le(60, down as nat);
            vstd::arithmetic::div_mod::lemma_basic_div(n as int, power2::pow2(down as nat) as int);
            vstd::arithmetic::div_mod::lemma_small_mod(n as nat, power2::pow2(down as nat));
        }
        return Rounded::Steps(0);
    }
    proof {
        rounding::lemma_pow2_le(down as nat, 60);
        power2::lemma_pow2_pos(down as nat);
    }
    let w: u64 = rounding::power_of_two(down) as u64;
    let q: u64 = n / w;
    let left: u64 = n % w;
    if 2 * left < w || (2 * left == w && q % 2 == 0) {
        Rounded::Steps(q)
    } else {
        proof {
            assert(q <= n) by (nonlinear_arith)
                requires
                    q == n / w,
                    w > 0,
            ;
        }
        Rounded::Steps(q + 1)
    }
}

/// Appends the sign of a number.
fn push_sign(out: &mut String, x: Double, always: bool)
    ensures
        final(out)@ == old(out)@ + sign_of(x, always),
{
    if x.is_negative() {
        out.append("-");
    } else if always {
        out.append("+");
    } else {
        assert(out@ =~= out@ + Seq::<char>::empty());
    }
}

/// Appends a number with one decimal place.
pub fn push_one_place(out: &mut String, x: Double, always: bool)
    ensures
        final(out)@ == old(out)@ + one_place(x, always),
{
    let k: u64 = x.place();
    if k > 0x7ff0_0000_0000_0000 {
        out.append("NaN");
        return;
    }
    push_sign(out, x, always);
    if k == 0x7ff0_0000_0000_0000 {
        out.append("inf");
        assert(out@ =~= old(out)@ + one_place(x, always));
        return;
    }
    match round_steps(x, 10) {
        Rounded::Whole(s) => {
            push_digits(out, &s);
            out.append(".");
            out.append("0");
            proof {
                reveal_strlit("0");
                let v = worth(s@);
                assert((v * 10) / 10 == v && (v * 10) % 10 == 0);
                assert("0"@ =~= decimal(0));
            }
        },
        Rounded::Steps(n) => {
            push_u64(out, n / 10);
            out.append(".");
            push_u64(out, n % 10);
        },
    }
    assert(out@ =~= old(out)@ + one_place(x, always));
}

/// Appends a number without decimal places.
pub fn push_no_place(out: &mut String, x: Double)
    ensures
        final(out)@ == old(out)@ + no_place(x),
{
    let k: u64 = x.place();
    if k > 0x7ff0_0000_0000_0000 {
        out.append("NaN");
        return;
    }
    push_sign(out, x, false);
    if k == 0x7ff0_0000_0000_0000 {
        out.append("inf");
        assert(out@ =~= old(out)@ + no_place(x));
        return;
    }
    match round_steps(x, 1) {
        Rounded::Whole(s) => {
            push_digits(out, &s);
            assert(worth(s@) * 1 == worth(s@)) by (nonlinear_arith);
        },
        Rounded::Steps(n) => {
            push_u64(out, n);
        },
    }
    assert(out@ =~= old(out)@ + no_place(x));
}

/// The number that decimal digits stand for.
pub open spec fn worth_of(s: Seq<char>) -> nat
    decreases s.len(),
{
    if s.len() == 0 {
        0
    } else {
        10 * worth_of(s.drop_last()) + (s.last() as int - 48) as nat
    }
}

/// A number in decimal stands for itself: read back digit by digit it is the same
/// number, every character is a digit, and it has no leading zero.
pub proof fn decimal_reads_back(v: nat)
    ensures
        worth_of(decimal(v)) == v,
        decimal(v).len() > 0,
        forall|i: int| 0 <= i < decimal(v).len() ==> 48 <= (#[trigger] decimal(v)[i]) as int <= 57,
        decimal(v).len() > 1 ==> decimal(v)[0] as int != 48,
    decreases v,
{
    let s = decimal(v);
    if v < 10 {
        assert(s.drop_last() =~= Seq::empty());
        assert(worth_of(s.drop_last()) == 0);
        assert(s.last() as int == 48 + v);
    } else {
        decimal_reads_back(v / 10);
        let t = decimal(v / 10);
        assert(s.drop_last() =~= t);
        assert(s.last() as int == 48 + v % 10);
        assert(s[0] == t[0]);
        assert forall|i: int| 0 <= i < s.len() implies 48 <= (#[trigger] s[i]) as int <= 57 by {
            if i < t.len() {
                assert(s[i] == t[i]);
            }
        }
        if t.len() == 1 {
            assert(t.drop_last() =~= Seq::empty());
            assert(worth_of(t.drop_last()) == 0);
            assert(t.last() == t[0]);
        }
    }
}

/// A number is written to the nearest step: it is off by at most half of one.
pub proof fn steps_are_the_nearest(x: Double, d: nat)
    requires
        x.is_finite(),
    ensures
        2 * accuracy::apart(
            (steps(x, d) * accuracy::one()) as int,
            (grid::number_at(x.position(), 52) * d) as int,
        ) <= accuracy::one(),
{
    let u = accuracy::one();
    let n = grid::number_at(x.position(), 52) * d;
    power2::lemma_pow2_pos(1074);
    vstd::arithmetic::div_mod::lemma_fundamental_div_mod(n as int, u as int);
    let (q, r) = (n / u, n % u);
    assert(q * u == u * q && (q + 1) * u == u * q + u) by (nonlinear_arith);
}

/// A number with one place: its sign, the whole tenths of it, a point, and the
/// last tenth.
pub proof fn one_place_is_tenths(x: Double, always: bool)
    requires
        x.is_finite(),
    ensures
        exists|t: nat|
            2 * accuracy::apart(
                (t * accuracy::one()) as int,
                (grid::number_at(x.position(), 52) * 10) as int,
            ) <= accuracy::one() && one_place(x, always) == #[trigger] tenths(
                x.negative(),
                always,
                t,
            ),
{
    steps_are_the_nearest(x, 10);
    assert(one_place(x, always) == tenths(x.negative(), always, steps(x, 10)));
}

/// So many tenths with a sign in front.
pub open spec fn tenths(negative: bool, always: bool, t: nat) -> Seq<char> {
    (if negative {
        "-"@
    } else if always {
        "+"@
    } else {
        Seq::empty()
    }) + decimal(t / 10) + "."@ + decimal(t % 10)
}

/// Texts are ordered by their first difference, and a text comes before every
/// longer one that starts with it.
pub proof fn texts_are_ordered_by_their_first_difference(
    head: Seq<char>,
    a: char,
    b: char,
    x: Seq<char>,
    y: Seq<char>,
)
    requires
        a != b,
    ensures
        before(head.push(a) + x, head.push(b) + y) <==> (a as int) < (b as int),
        before(head, head.push(a) + x),
        !before(head.push(a) + x, head),
        !before(head, head),
{
    let (p, q) = (head.push(a) + x, head.push(b) + y);
    let n = head.len() as int;
    assert(p.take(n) =~= q.take(n));
    assert(p[n] == a && q[n] == b);
    lemma_before_at(p, q, n);
    assert(head.take(n) =~= p.take(n));
    lemma_before_at(head, p, n);
    lemma_before_asymmetric(head, p);
    lemma_before_at(head, head, n);
}

} // verus!
