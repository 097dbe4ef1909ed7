//! The arithmetic against the machine's own.

use dub::ieee::double::Double;
use dub::ieee::single::Single;

fn s(x: f32) -> Single {
    Single { bits: x.to_bits() }
}

fn d(x: f64) -> Double {
    Double { bits: x.to_bits() }
}

fn same32(a: Single, b: f32) -> bool {
    a.bits == b.to_bits() || (b.is_nan() && f32::from_bits(a.bits).is_nan())
}

fn same64(a: Double, b: f64) -> bool {
    a.bits == b.to_bits() || (b.is_nan() && f64::from_bits(a.bits).is_nan())
}

struct Random(u64);

impl Random {
    fn next(&mut self) -> u64 {
        self.0 ^= self.0 << 13;
        self.0 ^= self.0 >> 7;
        self.0 ^= self.0 << 17;
        self.0
    }

    fn single(&mut self) -> f32 {
        let r = self.next();
        match r % 5 {
            0 => f32::from_bits((r >> 16) as u32),
            1 => f32::from_bits(((r >> 16) as u32 & 0x8fff_ffff) | 0x3000_0000),
            2 => f32::from_bits((r >> 16) as u32 & 0x807f_ffff),
            3 => ((r >> 40) as i32 - 8_000_000) as f32 / 1024.0,
            _ => SPECIAL32[(r >> 20) as usize % SPECIAL32.len()],
        }
    }

    fn double(&mut self) -> f64 {
        let r = self.next();
        let q = self.next();
        match r % 5 {
            0 => f64::from_bits(q),
            1 => f64::from_bits((q & 0x80ff_ffff_ffff_ffff) | 0x3f00_0000_0000_0000),
            2 => f64::from_bits(q & 0x800f_ffff_ffff_ffff),
            3 => (q >> 20) as i64 as f64 / 65536.0 - 1.0e6,
            _ => f64::from(SPECIAL32[(r >> 20) as usize % SPECIAL32.len()]),
        }
    }
}

const SPECIAL32: [f32; 14] = [
    0.0,
    -0.0,
    1.0,
    -1.0,
    0.5,
    2.0,
    f32::INFINITY,
    f32::NEG_INFINITY,
    f32::NAN,
    f32::MAX,
    f32::MIN_POSITIVE,
    -f32::MAX,
    1.0e-45,
    16_777_217.0,
];

#[test]
fn single_precision_agrees_with_the_machine() {
    let mut rng = Random(0x1234_5678_9abc_def1);
    for _ in 0..60_000 {
        let a = rng.single();
        let b = rng.single();
        assert!(same32(s(a).plus(s(b)), a + b), "{a:?} + {b:?}");
        assert!(same32(s(a).minus(s(b)), a - b), "{a:?} - {b:?}");
        assert!(same32(s(a).times(s(b)), a * b), "{a:?} * {b:?}");
        assert!(same32(s(a).over(s(b)), a / b), "{a:?} / {b:?}");
        assert_eq!(s(a).lt(s(b)), a < b, "{a:?} < {b:?}");
        assert_eq!(s(a).le(s(b)), a <= b, "{a:?} <= {b:?}");
        assert!(same32(s(a).abs(), a.abs()));
        assert_eq!(s(a).is_finite(), a.is_finite());
        assert!(same64(s(a).widen(), f64::from(a)), "widen {a:?}");
        assert_eq!(s(a).to_u64(u64::MAX), a as u64, "{a:?} as u64");
        assert_eq!(s(a).to_u64(u64::from(u32::MAX)), u64::from(a as u32), "{a:?} as u32");
        assert_eq!(s(a).ceil_u64(u64::MAX), a.ceil() as u64, "ceil {a:?}");
        assert_eq!(s(a).round_u64(u64::MAX), a.round() as u64, "round {a:?}");
    }
}

#[test]
fn double_precision_agrees_with_the_machine() {
    let mut rng = Random(0xfeed_beef_1234_5671);
    for _ in 0..60_000 {
        let a = rng.double();
        let b = rng.double();
        assert!(same64(d(a).plus(d(b)), a + b), "{a:?} + {b:?}");
        assert!(same64(d(a).minus(d(b)), a - b), "{a:?} - {b:?}");
        assert!(same64(d(a).times(d(b)), a * b), "{a:?} * {b:?}");
        assert!(same64(d(a).over(d(b)), a / b), "{a:?} / {b:?}");
        assert_eq!(d(a).lt(d(b)), a < b, "{a:?} < {b:?}");
        assert_eq!(d(a).le(d(b)), a <= b, "{a:?} <= {b:?}");
        assert!(same64(d(a).abs(), a.abs()));
        assert_eq!(d(a).is_finite(), a.is_finite());
        assert!(same32(d(a).narrow(), a as f32), "narrow {a:?}");
        assert!(same64(d(a).sqrt(), a.sqrt()), "sqrt {a:?}");
        assert_eq!(d(a).to_u64(u64::MAX), a as u64, "{a:?} as u64");
        assert!(same64(d(a).clamp(d(0.0), d(1.0)), a.clamp(0.0, 1.0)), "clamp {a:?}");
    }
}

#[test]
fn integers_convert_as_on_the_machine() {
    let mut rng = Random(0x0bad_cafe_dead_0001);
    for i in 0..40_000u64 {
        let n = if i < 2_000 { i } else { rng.next() >> (i % 64) };
        assert!(same32(Single::from_u64(n), n as f32), "{n} as f32");
        assert!(same64(Double::from_u64(n), n as f64), "{n} as f64");
    }
}

#[test]
fn sums_that_cancel_are_positive_zero() {
    assert_eq!(s(1.5).minus(s(1.5)).bits, 0);
    assert_eq!(s(-0.0).plus(s(-0.0)).bits, 0x8000_0000);
    assert_eq!(s(-0.0).plus(s(0.0)).bits, 0);
    assert_eq!(d(-2.5).plus(d(2.5)).bits, 0);
}

#[test]
fn invalid_operations_give_the_canonical_nan() {
    assert_eq!(s(f32::INFINITY).minus(s(f32::INFINITY)).bits, 0x7fc0_0000);
    assert_eq!(s(0.0).over(s(-0.0)).bits, 0x7fc0_0000);
    assert_eq!(s(0.0).times(s(f32::INFINITY)).bits, 0x7fc0_0000);
    assert_eq!(d(-1.0).sqrt().bits, 0x7ff8_0000_0000_0000);
}

#[test]
fn operations_keep_the_order() {
    let xs = [0.0f32, 1e-45, 1e-38, 0.1, 0.5, 0.999_999_94, 1.0, 3.7, 4096.0, 1e20];
    for (i, a) in xs.iter().enumerate() {
        for b in &xs[i..] {
            for c in xs {
                let (a, b, c) = (s(*a), s(*b), s(c));
                assert!(c.minus(b).le(c.minus(a)));
                assert!(a.times(c).le(b.times(c)));
                if c.bits != 0 {
                    assert!(a.over(c).le(b.over(c)));
                }
                assert_eq!(a.plus(c).bits, c.plus(a).bits);
            }
        }
    }
}

#[test]
fn whole_numbers_of_either_sign_add_up() {
    let big = (1i64 << 53) - 1;
    for (a, b) in [(0, 0), (5, -5), (-7, 3), (big, -1), (-big, big), (1 - big, -1)] {
        let sum = d(a as f64).plus(d(b as f64));
        assert_eq!(sum.bits, ((a + b) as f64).to_bits());
    }
}
