//! The numbers agree with the machine's own, bit for bit.

use clove4apm::float::double::Double;
use clove4apm::float::single::Single;

/// A small generator: enough to reach every exponent and many ties.
struct Source(u64);

impl Source {
    fn next(&mut self) -> u64 {
        self.0 ^= self.0 << 13;
        self.0 ^= self.0 >> 7;
        self.0 ^= self.0 << 17;
        self.0
    }

    /// A number of any kind, with many that are close to each other or special.
    fn double(&mut self) -> f64 {
        match self.next() % 8 {
            0 => (self.next() % 2000) as f64 / 8.0,
            1 => [0.0, -0.0, 1.0, -1.0, f64::INFINITY, f64::NEG_INFINITY, f64::NAN, f64::MAX, f64::MIN_POSITIVE, 5e-324]
                [(self.next() % 10) as usize],
            2 => (self.next() % 100_000) as f64 + 0.5,
            3 => f64::from_bits((self.next() % 64) | 0x7fe0_0000_0000_0000),
            4 => f64::from_bits(self.next() % 4096),
            5 => -((self.next() % 1_000_000) as f64) / 3.0,
            _ => f64::from_bits(self.next()),
        }
    }

    fn single(&mut self) -> f32 {
        match self.next() % 6 {
            0 => (self.next() % 2000) as f32 / 8.0,
            1 => [0.0, -0.0, 1.0, f32::INFINITY, f32::NEG_INFINITY, f32::NAN, f32::MAX, 1e-45]
                [(self.next() % 8) as usize],
            2 => f32::from_bits((self.next() % 4096) as u32),
            _ => f32::from_bits(self.next() as u32),
        }
    }
}

fn d(x: f64) -> Double {
    Double { bits: x.to_bits() }
}

fn f(x: Double) -> f64 {
    f64::from_bits(x.bits)
}

fn s(x: f32) -> Single {
    Single { bits: x.to_bits() }
}

fn agree(ours: Double, machine: f64, what: &str) {
    if machine.is_nan() {
        assert!(f(ours).is_nan(), "{what}: {} is a number", f(ours));
    } else {
        assert_eq!(ours.bits, machine.to_bits(), "{what}: {} != {machine}", f(ours));
    }
}

fn agree_single(ours: Single, machine: f32, what: &str) {
    if machine.is_nan() {
        assert!(f32::from_bits(ours.bits).is_nan(), "{what}");
    } else {
        assert_eq!(ours.bits, machine.to_bits(), "{what}");
    }
}

#[test]
fn doubles_compute_like_the_machine() {
    let mut g = Source(0x9e37_79b9_7f4a_7c15);
    for _ in 0..40_000 {
        let (a, b) = (g.double(), g.double());
        agree(d(a).plus(d(b)), a + b, &format!("{a:?} + {b:?}"));
        agree(d(a).minus(d(b)), a - b, &format!("{a:?} - {b:?}"));
        agree(d(a).times(d(b)), a * b, &format!("{a:?} * {b:?}"));
        agree(d(a).over(d(b)), a / b, &format!("{a:?} / {b:?}"));
        assert_eq!(d(a).less(d(b)), a < b, "{a:?} < {b:?}");
        assert_eq!(d(a).at_most(d(b)), a <= b, "{a:?} <= {b:?}");
        assert_eq!(d(a).to_u64(), a as u64, "{a:?} as u64");
        assert_eq!(d(a).ceil_to_u64(), a.ceil() as u64, "ceil {a:?}");
        assert_eq!(f(d(a).negate()).to_bits(), (-a).to_bits());
        if a != 0.0 || b != 0.0 {
            agree(d(a).max(d(b)), a.max(b), &format!("max {a:?} {b:?}"));
            agree(d(a).min(d(b)), a.min(b), &format!("min {a:?} {b:?}"));
        }
    }
}

#[test]
fn integers_round_like_the_machine() {
    let mut g = Source(7);
    for i in 0..40_000u64 {
        let v = g.next() >> (i % 64);
        agree(Double::from_u64(v), v as f64, "u64");
        agree(Double::from_i64(v as i64), v as i64 as f64, "i64");
        agree_single(Single::from_u64(v), v as f32, "u64 as single");
    }
    for v in [0, 1, u64::MAX, 1 << 53, (1 << 53) + 1, (1 << 53) + 2, (1 << 53) + 3, u64::MAX - 1024] {
        agree(Double::from_u64(v), v as f64, "edge");
    }
    agree(Double::from_i64(i64::MIN), i64::MIN as f64, "least");
}

#[test]
fn quotients_are_the_literals_they_stand_for() {
    agree(Double::from_quotient(1, 100), 0.01, "0.01");
    agree(Double::from_quotient(1, 10), 0.10, "0.10");
    agree(Double::from_quotient(50, 100), 0.50, "0.50");
    agree(Double::from_quotient(95, 100), 0.95, "0.95");
    agree(Double::from_quotient(99, 100), 0.99, "0.99");
}

#[test]
fn singles_compute_like_the_machine() {
    let mut g = Source(99);
    for _ in 0..40_000 {
        let (a, b) = (g.single(), g.single());
        agree_single(s(a).plus(s(b)), a + b, &format!("{a:?} + {b:?}"));
        agree_single(s(a).minus(s(b)), a - b, &format!("{a:?} - {b:?}"));
        agree_single(s(a).over(s(b)), a / b, &format!("{a:?} / {b:?}"));
        assert_eq!(s(a).at_least(s(b)), a >= b, "{a:?} >= {b:?}");
        agree_single(s(a).abs(), a.abs(), "abs");
        agree_single(s(a).negate(), -a, "negate");
        agree(s(a).widen(), a as f64, &format!("widen {a:?}"));
    }
}
